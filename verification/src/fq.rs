//! Finite fields: the prime field `Fp`, its quadratic extension `Fp2 = Fp[x]/(x^2 - D)`
//! and the quartic extension `Fp4 = Fp2[y]/(y^2 - D2)`.
pub use crate::fp4::Fp4;
use crate::monoid::{lemma_mpow_square_multiply_step, lemma_mpow_unit, monoid_laws, mpow};
use crate::modular::{
    lemma_add_cong, lemma_mul_cong, lemma_sub_cong, euler_value, has_non_residue, is_euler_square, is_prime, lemma_euler_value_sign,
    lemma_fermat_unit, lemma_mod_by_quotient, lemma_mod_range, lemma_mul_mod_both,
    lemma_pow_mod_base, lemma_pow_mul_mod, lemma_pow_of_product_mod, lemma_pow_pow_mod,
    lemma_pow_unfold, lemma_square_root_of_one,
};
use vstd::arithmetic::div_mod::*;
use vstd::arithmetic::mul::*;
use vstd::arithmetic::power::*;
use vstd::arithmetic::power2::*;
use vstd::prelude::*;

verus! {

/// The moduli that `Fp` supports: at least 2, and small enough that the sum of
/// two residues fits in a `u32`.
pub open spec fn valid_modulus(p: int) -> bool {
    2 <= p <= 0x8000_0000
}

/// An element of the prime field `Z / P Z`, stored as its least residue.
#[derive(Copy, Clone, Debug, PartialEq, Eq, PartialOrd, Ord, Hash)]
pub struct Fp<const P: u32> {
    value: u32,
}

impl<const P: u32> View for Fp<P> {
    type V = int;

    closed spec fn view(&self) -> int {
        self.value as int
    }
}

/// One step of square-and-multiply: squaring the base and halving the exponent
/// keeps `result * base^exp` fixed modulo `p`.
proof fn lemma_square_multiply_step(r: int, b: int, e: nat, p: int)
    requires
        p > 0,
    ensures
        e % 2 == 1 ==> (((r * b) % p) * pow((b * b) % p, e / 2)) % p == (r * pow(b, e)) % p,
        e % 2 == 0 ==> (r * pow((b * b) % p, e / 2)) % p == (r * pow(b, e)) % p,
{
    let k = e / 2;
    lemma_pow_mod_base(b * b, k, p);
    lemma_pow_distributes(b, b, k);
    lemma_pow_adds(b, k, k);
    assert(pow((b * b) % p, k) % p == pow(b, k + k) % p);
    if e % 2 == 1 {
        assert(e == (k + k) + 1);
        lemma_pow_unfold(b, k + k);
        lemma_mul_mod_both(r * b, pow((b * b) % p, k), p);
        lemma_mul_mod_both(r * b, pow(b, k + k), p);
        assert((r * b) * pow(b, k + k) == r * pow(b, e)) by (nonlinear_arith)
            requires
                pow(b, e) == b * pow(b, k + k),
        ;
    } else {
        assert(e == k + k);
        lemma_mul_mod_both(r, pow((b * b) % p, k), p);
        lemma_mul_mod_both(r, pow(b, k + k), p);
    }
}

impl<const P: u32> Fp<P> {
    #[verifier::type_invariant]
    spec fn well_formed(self) -> bool {
        self.value < P && valid_modulus(P as int)
    }

    /// The additive identity.
    pub fn zero() -> (r: Self)
        requires
            valid_modulus(P as int),
        ensures
            r@ == 0,
    {
        Self { value: 0 }
    }

    /// The multiplicative identity.
    pub fn one() -> (r: Self)
        requires
            valid_modulus(P as int),
        ensures
            r@ == 1,
    {
        Self { value: 1 }
    }

    /// The residue of `value` modulo `P`.
    pub fn new(value: u32) -> (r: Self)
        requires
            valid_modulus(P as int),
        ensures
            r@ == (value as int) % (P as int),
    {
        Self { value: value % P }
    }

    /// The residue of a signed integer modulo `P`, in `[0, P)`.
    pub fn from_i32(val: i32) -> (r: Self)
        requires
            valid_modulus(P as int),
            P < 0x8000_0000,
        ensures
            r@ == (val as int) % (P as int),
    {
        if val >= 0 {
            return Self::new(val as u32);
        }
        let n: u64 = (0i64 - val as i64) as u64;
        let rem: u64 = n % (P as u64);
        let ghost p = P as int;
        let ghost q = (n as int) / p;
        proof {
            lemma_fundamental_div_mod(n as int, p);
            lemma_mod_range(n as int, p);
            assert(val as int == -(n as int));
            assert(n as int == p * q + rem as int);
            assert((-q) * p == -(p * q)) by (nonlinear_arith);
            assert((-q - 1) * p == -(p * q) - p) by (nonlinear_arith);
        }
        if rem == 0 {
            proof {
                lemma_mod_by_quotient(val as int, p, -q);
            }
            Self { value: 0 }
        } else {
            proof {
                lemma_mod_by_quotient(val as int, p, -q - 1);
            }
            Self { value: P - rem as u32 }
        }
    }

    /// The least non-negative residue that represents this element.
    pub fn value(&self) -> (r: u32)
        ensures
            r == self@,
            r < P,
            valid_modulus(P as int),
    {
        proof {
            use_type_invariant(self);
        }
        self.value
    }

    pub fn is_zero(&self) -> (r: bool)
        ensures
            r == (self@ == 0),
    {
        self.value == 0
    }

    pub fn add(self, rhs: Self) -> (r: Self)
        ensures
            r@ == (self@ + rhs@) % (P as int),
    {
        proof {
            use_type_invariant(&self);
            use_type_invariant(&rhs);
        }
        let sum = self.value + rhs.value;
        proof {
            if sum >= P {
                lemma_mod_by_quotient(sum as int, P as int, 1);
            } else {
                lemma_mod_by_quotient(sum as int, P as int, 0);
            }
        }
        Self { value: if sum >= P { sum - P } else { sum } }
    }

    pub fn sub(self, rhs: Self) -> (r: Self)
        ensures
            r@ == (self@ - rhs@) % (P as int),
    {
        proof {
            use_type_invariant(&self);
            use_type_invariant(&rhs);
            if self.value >= rhs.value {
                lemma_mod_by_quotient(self@ - rhs@, P as int, 0);
            } else {
                lemma_mod_by_quotient(self@ - rhs@, P as int, -1);
            }
        }
        Self {
            value: if self.value >= rhs.value {
                self.value - rhs.value
            } else {
                self.value + P - rhs.value
            },
        }
    }

    pub fn neg(self) -> (r: Self)
        ensures
            r@ == (-self@) % (P as int),
    {
        proof {
            use_type_invariant(&self);
            if self.value == 0 {
                lemma_mod_by_quotient(-self@, P as int, 0);
            } else {
                lemma_mod_by_quotient(-self@, P as int, -1);
            }
        }
        if self.is_zero() {
            self
        } else {
            Self { value: P - self.value }
        }
    }

    pub fn mul(self, rhs: Self) -> (r: Self)
        ensures
            r@ == (self@ * rhs@) % (P as int),
    {
        proof {
            use_type_invariant(&self);
            use_type_invariant(&rhs);
            assert(self@ * rhs@ <= 0xffff_ffff * 0xffff_ffff) by (nonlinear_arith)
                requires
                    0 <= self@ < 0x1_0000_0000,
                    0 <= rhs@ < 0x1_0000_0000,
            ;
            assert(0 <= self@ * rhs@) by (nonlinear_arith)
                requires
                    0 <= self@,
                    0 <= rhs@,
            ;
            lemma_mod_range(self@ * rhs@, P as int);
        }
        Self { value: ((self.value as u64 * rhs.value as u64) % (P as u64)) as u32 }
    }

    /// `self^exp`, by square-and-multiply.
    pub fn pow(self, exp: u64) -> (r: Self)
        ensures
            r@ == pow(self@, exp as nat) % (P as int),
    {
        proof {
            use_type_invariant(&self);
        }
        let ghost a = self@;
        let ghost e0 = exp;
        let mut base = self;
        let mut exp = exp;
        let mut result = Self::one();
        proof {
            lemma_pow_unfold(a, 0);
            lemma_mod_range(a, P as int);
        }
        while exp > 0
            invariant
                valid_modulus(P as int),
                ((result@ * pow(base@, exp as nat)) % (P as int)) == pow(a, e0 as nat) % (P as int),
            decreases exp,
        {
            proof {
                use_type_invariant(&base);
                use_type_invariant(&result);
                assert(exp & 1 == exp % 2) by (bit_vector);
                assert(exp >> 1 == exp / 2) by (bit_vector);
                lemma_square_multiply_step(result@, base@, exp as nat, P as int);
            }
            if exp & 1 == 1 {
                result = result.mul(base);
            }
            base = base.mul(base);
            exp >>= 1;
        }
        proof {
            lemma_pow_unfold(base@, 0);
            use_type_invariant(&result);
            lemma_small_mod(result@ as nat, P as nat);
        }
        result
    }

    /// The inverse `self^(P-2)` of a nonzero element; `None` for zero.
    /// When `P` is prime the result is the multiplicative inverse (Fermat).
    pub fn inverse(self) -> (r: Option<Self>)
        ensures
            r is None <==> self@ == 0,
            r matches Some(x) ==> x@ == pow(self@, (P - 2) as nat) % (P as int),
            r matches Some(x) ==> (is_prime(P as int) ==> (self@ * x@) % (P as int) == 1),
    {
        proof {
            use_type_invariant(&self);
        }
        if self.is_zero() {
            return None;
        }
        let x = self.pow(P as u64 - 2);
        proof {
            if is_prime(P as int) {
                lemma_inverse_by_fermat(self@, P as int);
            }
        }
        Some(x)
    }

    /// The inverse of a nonzero element; zero has none, so callers exclude it.
    pub fn inv(self) -> (r: Self)
        requires
            self@ != 0,
        ensures
            r@ == pow(self@, (P - 2) as nat) % (P as int),
            is_prime(P as int) ==> (self@ * r@) % (P as int) == 1,
    {
        match self.inverse() {
            Some(x) => x,
            None => {
                proof {
                    assert(false);
                }
                self
            },
        }
    }

    /// `self * rhs^(P-2)`, or `None` when `rhs` is zero.
    pub fn checked_div(self, rhs: Self) -> (r: Option<Self>)
        ensures
            r is None <==> rhs@ == 0,
            r matches Some(q) ==> q@ == (self@ * (pow(rhs@, (P - 2) as nat) % (P as int))) % (
            P as int),
            r matches Some(q) ==> (is_prime(P as int) ==> (q@ * rhs@) % (P as int) == self@),
    {
        match rhs.inverse() {
            Some(inv) => {
                let q = self.mul(inv);
                proof {
                    use_type_invariant(&self);
                    if is_prime(P as int) {
                        lemma_div_undoes_mul(self@, rhs@, inv@, P as int);
                    }
                }
                Some(q)
            },
            None => None,
        }
    }

    /// Division by a nonzero element; callers exclude a zero divisor.
    pub fn div(self, rhs: Self) -> (r: Self)
        requires
            rhs@ != 0,
        ensures
            r@ == (self@ * (pow(rhs@, (P - 2) as nat) % (P as int))) % (P as int),
            is_prime(P as int) ==> (r@ * rhs@) % (P as int) == self@,
    {
        match self.checked_div(rhs) {
            Some(q) => q,
            None => {
                proof {
                    assert(false);
                }
                self
            },
        }
    }

    /// The Legendre symbol `(self | P)` read off Euler's criterion: the value of
    /// `self^((P-1)/2)`, with any value above 1 reported as -1.
    pub fn legendre_symbol(self) -> (r: i32)
        ensures
            r == (if euler_value(self@, P as int) > 1 {
                -1
            } else {
                euler_value(self@, P as int)
            }),
    {
        proof {
            use_type_invariant(&self);
        }
        let ls = self.pow((P as u64 - 1) / 2).value;
        if ls > 1 {
            -1
        } else {
            ls as i32
        }
    }

    /// `self` is zero or a quadratic residue by Euler's criterion.
    pub fn is_square(self) -> (r: bool)
        ensures
            r == is_euler_square(self@, P as int),
    {
        proof {
            use_type_invariant(&self);
            lemma_small_mod(self@ as nat, P as nat);
        }
        self.legendre_symbol() == 1 || self.value == 0
    }

    /// The smallest `d >= 2` that fails Euler's criterion modulo `P`.
    /// The search only ends when such a residue exists below `P`.
    pub fn find_non_residue() -> (r: u32)
        requires
            valid_modulus(P as int),
            has_non_residue(P as int),
        ensures
            2 <= r < P,
            !is_euler_square(r as int, P as int),
            forall|y: int| 2 <= y < r ==> #[trigger] is_euler_square(y, P as int),
    {
        let ghost w = choose|x: int| 2 <= x < P && !#[trigger] is_euler_square(x, P as int);
        let mut d = Self { value: 2 };
        while d.is_square()
            invariant
                valid_modulus(P as int),
                2 <= d@ <= w < P,
                !is_euler_square(w, P as int),
                forall|y: int| 2 <= y < d@ ==> #[trigger] is_euler_square(y, P as int),
            decreases P - d@,
        {
            let ghost old_d = d@;
            d = d.add(Self::one());
            proof {
                lemma_mod_by_quotient(old_d + 1, P as int, 0);
            }
        }
        d.value
    }

    /// A square root by the Tonelli-Shanks algorithm, or `None` for an element
    /// that fails Euler's criterion. For `P % 4 == 3` the root is `self^((P+1)/4)`.
    /// Otherwise the algorithm needs `P` prime and a non-residue below `P`.
    #[verifier::spinoff_prover]
    #[verifier::rlimit(40)]
    pub fn sqrt(self) -> (r: Option<Self>)
        requires
            P % 4 == 3 || (is_prime(P as int) && has_non_residue(P as int)),
        ensures
            r is None <==> !is_euler_square(self@, P as int),
            r matches Some(x) ==> (x@ * x@) % (P as int) == self@,
            r matches Some(x) ==> (P % 4 == 3 && self@ != 0 ==> x@ == pow(
                self@,
                ((P + 1) / 4) as nat,
            ) % (P as int)),
            r matches Some(x) ==> x@ == fp_sqrt_value(self@, P as int),
    {
        proof {
            reveal(fp_sqrt_value);
        }
        proof {
            use_type_invariant(&self);
            lemma_small_mod(self@ as nat, P as nat);
        }
        if self.is_zero() {
            let z = Self::zero();
            proof {
                assert(fp_sqrt_value(self@, P as int) == 0);
                assert((z@ * z@) % (P as int) == 0);
            }
            return Some(z);
        }
        if !self.is_square() {
            return None;
        }
        let ghost a = self@;
        if P % 4 == 3 {
            let r = self.pow((P as u64 + 1) / 4);
            proof {
                lemma_sqrt_three_mod_four(a, P as int);
            }
            return Some(r);
        }
        // P - 1 = q * 2^s with q odd
        let mut q = P - 1;
        let mut s = 0u32;
        proof {
            lemma_pow2(0);
            lemma_pow_unfold(2, 0);
        }
        while q & 1 == 0
            invariant
                valid_modulus(P as int),
                q >= 1,
                (q as int) * pow2(s as nat) == P - 1,
                s < 32,
                odd_part((P - 1) as nat) == odd_part(q as nat),
                two_adic((P - 1) as nat) == s + two_adic(q as nat),
            decreases q,
        {
            proof {
                assert(q & 1 == q % 2) by (bit_vector);
                assert(q >> 1 == q / 2) by (bit_vector);
                lemma_halving_step(q as int, s as nat, P as int);
            }
            q >>= 1;
            s += 1;
        }
        proof {
            assert(q & 1 == q % 2) by (bit_vector);
            assert(odd_part(q as nat) == q);
            assert(two_adic(q as nat) == 0);
        }
        let z = Self { value: Self::find_non_residue() };
        proof {
            lemma_first_non_residue(P as int, z@);
        }
        let mut m = s;
        let mut c = z.pow(q as u64);
        let mut t = self.pow(q as u64);
        let mut r = self.pow((q as u64 + 1) / 2);
        proof {
            lemma_tonelli_shanks_start(a, z@, q as int, s as nat, P as int);
        }
        while t.value != 1
            invariant
                is_prime(P as int),
                valid_modulus(P as int),
                1 <= m < 32,
                pow(c@, pow2((m - 1) as nat)) % (P as int) == P - 1,
                pow(t@, pow2((m - 1) as nat)) % (P as int) == 1,
                (r@ * r@) % (P as int) == (a * t@) % (P as int),
                ts_loop(m as nat, c@, t@, r@, P as int) == ts_root(a, P as int),
            decreases m,
        {
            proof {
                use_type_invariant(&t);
                use_type_invariant(&c);
                use_type_invariant(&r);
                lemma2_to64();
                lemma_pow_unfold(t@, 0);
                lemma_small_mod(t@ as nat, P as nat);
            }
            let mut t2i = t;
            let mut i = 0u32;
            while t2i.value != 1
                invariant
                    is_prime(P as int),
                    valid_modulus(P as int),
                    1 <= m < 32,
                    i < m,
                    t2i@ == pow(t@, pow2(i as nat)) % (P as int),
                    pow(t@, pow2((m - 1) as nat)) % (P as int) == 1,
                    forall|j: nat| j <= i ==> #[trigger] (pow(t@, pow2(j)) % (P as int)) != 1
                        || j == i,
                    t@ != 1,
                    pow(t@, pow2(0)) % (P as int) == t@,
                    ts_order(t@, P as int, 0, m as nat) == ts_order(t@, P as int, i as nat, m as nat),
                decreases m - i,
            {
                proof {
                    lemma_pow_square_step(t@, i as nat, P as int);
                }
                let ghost old_i = i;
                proof {
                    assert(ts_order(t@, P as int, i as nat, m as nat) == ts_order(t@, P as int, (i + 1) as nat, m as nat));
                }
                t2i = t2i.mul(t2i);
                i += 1;
                proof {
                    assert(forall|j: nat| j <= i ==> #[trigger] (pow(t@, pow2(j)) % (P as int))
                        != 1 || j == i) by {
                        assert forall|j: nat| j <= i implies #[trigger] (pow(t@, pow2(j)) % (
                        P as int)) != 1 || j == i by {
                            if j < i {
                                assert(j <= old_i);
                            }
                        }
                    }
                    if i as nat == (m - 1) as nat {
                    }
                }
            }
            proof {
                assert(i >= 1);
                lemma_pow2_adds((m - i - 1) as nat, 1);
                lemma_pow2_strictly_increases((m - i - 1) as nat, 63);
                lemma_pow2(1);
                lemma_pow_unfold(2, 0);
                lemma_pow_unfold(2, 1);
                vstd::bits::lemma_u64_shl_is_mul(1, (m - i - 1) as u64);
            }
            proof {
                use_type_invariant(&t2i);
                assert(t2i@ == 1);
                assert(ts_order(t@, P as int, i as nat, m as nat) == i);
            }
            let b = c.pow(1u64 << ((m - i - 1) as u64));
            let ghost old_c = c@;
            let ghost old_t = t@;
            let ghost old_r = r@;
            let ghost old_m = m;
            c = b.mul(b);
            t = t.mul(c);
            r = r.mul(b);
            m = i;
            proof {
                assert(b@ == pow(old_c, pow2((old_m - i - 1) as nat)) % (P as int));
                assert(ts_loop(old_m as nat, old_c, old_t, old_r, P as int) == ts_loop(i as nat, c@, t@, r@, P as int));
                lemma_tonelli_shanks_step(
                    a,
                    old_c,
                    old_t,
                    old_r,
                    b@,
                    old_m as nat,
                    i as nat,
                    P as int,
                );
            }
        }
        proof {
            use_type_invariant(&t);
            lemma_small_mod(1, P as nat);
            assert((a * 1) % (P as int) == a);
            assert(t@ == 1);
            assert(ts_loop(m as nat, c@, t@, r@, P as int) == r@);
            assert(a != 0 && P % 4 != 3);
            assert(fp_sqrt_value(a, P as int) == ts_root(a, P as int));
        }
        Some(r)
    }
}

/// The odd part of `n`: `n` with every factor 2 removed.
pub open spec fn odd_part(n: nat) -> nat
    decreases n,
{
    if n > 0 && n % 2 == 0 {
        odd_part(n / 2)
    } else {
        n
    }
}

/// The number of factors 2 in `n`.
pub open spec fn two_adic(n: nat) -> nat
    decreases n,
{
    if n > 0 && n % 2 == 0 {
        1 + two_adic(n / 2)
    } else {
        0
    }
}

/// The least `j` with `i <= j < m` and `t^(2^j) == 1` modulo `p`, or `m`.
pub open spec fn ts_order(t: int, p: int, i: nat, m: nat) -> nat
    decreases m - i,
{
    if i >= m {
        m
    } else if pow(t, pow2(i)) % p == 1 {
        i
    } else {
        ts_order(t, p, i + 1, m)
    }
}

/// The Tonelli-Shanks iteration from `(m, c, t, r)`: while `t != 1`, take the
/// least `i` with `t^(2^i) == 1`, set `b = c^(2^(m - i - 1))`, and go on from
/// `(i, b^2, t b^2, r b)`; the result is the final `r`.
pub open spec fn ts_loop(m: nat, c: int, t: int, r: int, p: int) -> int
    decreases m,
{
    if t == 1 {
        r
    } else {
        let i = ts_order(t, p, 0, m);
        if i >= m {
            r
        } else {
            let b = pow(c, pow2((m - i - 1) as nat)) % p;
            let c2 = (b * b) % p;
            ts_loop(i, c2, (t * c2) % p, (r * b) % p, p)
        }
    }
}

/// The least non-residue in `[2, p)`.
pub open spec fn first_non_residue(p: int) -> int {
    choose|x: int| 2 <= x < p && !is_euler_square(x, p) && forall|y: int| 2 <= y < x ==> #[trigger] is_euler_square(y, p)
}

/// The square root of `a` that Tonelli-Shanks finds modulo `p`, starting from
/// `p - 1 == q 2^s` with `q` odd and the least non-residue `z`.
pub open spec fn ts_root(a: int, p: int) -> int {
    let q = odd_part((p - 1) as nat);
    let s = two_adic((p - 1) as nat);
    let z = first_non_residue(p);
    ts_loop(s, pow(z, q) % p, pow(a, q) % p, pow(a, ((q + 1) / 2) as nat) % p, p)
}

/// The square root that `Fp::sqrt` gives for a square `a` modulo `p`: 0 for
/// 0, `a^((p + 1) / 4)` for `p % 4 == 3`, and otherwise the Tonelli-Shanks root.
#[verifier::opaque]
pub open spec fn fp_sqrt_value(a: int, p: int) -> int {
    if a == 0 {
        0
    } else if p % 4 == 3 {
        pow(a, ((p + 1) / 4) as nat) % p
    } else {
        ts_root(a, p)
    }
}

/// `x / y` modulo `p`, through `y^(p - 2)`.
pub open spec fn fp_div(x: int, y: int, p: int) -> int {
    (x * (pow(y, (p - 2) as nat) % p)) % p
}

/// The square root that `Fp2::sqrt` gives for a square `a` of `Fp2`: with
/// `n` the root of the norm, the first of `(a0 + n) / 2` and `(a0 - n) / 2`
/// that has a nonzero root `x` gives `(x, a1 / 2x)`; otherwise `(0, y)` with `y`
/// the root of `a0 / d`.
#[verifier::opaque]
pub open spec fn fp2_sqrt_value(a: (int, int), d: int, p: int) -> (int, int) {
    if a.0 == 0 && a.1 == 0 {
        (0, 0)
    } else {
        let n = fp_sqrt_value(f2_norm(a, d, p), p);
        let ti = pow(2, (p - 2) as nat) % p;
        let h1 = (((a.0 + n) % p) * ti) % p;
        let x1 = fp_sqrt_value(h1, p);
        let h2 = (((a.0 - n) % p) * ti) % p;
        let x2 = fp_sqrt_value(h2, p);
        if is_euler_square(h1, p) && x1 != 0 {
            (x1, fp_div(a.1, (x1 + x1) % p, p))
        } else if is_euler_square(h2, p) && x2 != 0 {
            (x2, fp_div(a.1, (x2 + x2) % p, p))
        } else {
            (0, fp_sqrt_value(fp_div(a.0, d, p), p))
        }
    }
}

/// The square root of -1 that `Fp2::imaginary_unit` gives.
pub open spec fn f2_imag_value(d: int, p: int) -> (int, int) {
    fp2_sqrt_value((p - 1, 0int), d, p)
}

/// The least non-residue is the one that has no smaller non-residue.
proof fn lemma_first_non_residue(p: int, x: int)
    requires
        2 <= x < p,
        !is_euler_square(x, p),
        forall|y: int| 2 <= y < x ==> #[trigger] is_euler_square(y, p),
    ensures
        first_non_residue(p) == x,
{
    let y = first_non_residue(p);
    assert(2 <= y < p && !is_euler_square(y, p) && forall|z: int| 2 <= z < y ==> #[trigger] is_euler_square(z, p));
    if y < x {
        assert(is_euler_square(y, p));
    } else if x < y {
        assert(is_euler_square(x, p));
    }
}

/// Removing a factor of two from `P - 1 == q * 2^s` keeps the product and `s < 31`.
proof fn lemma_halving_step(q: int, s: nat, p: int)
    requires
        valid_modulus(p),
        q >= 1,
        q % 2 == 0,
        q * pow2(s) == p - 1,
    ensures
        q / 2 >= 1,
        (q / 2) * pow2(s + 1) == p - 1,
        s + 1 < 32,
{
    lemma_pow2_unfold(s + 1);
    assert((q / 2) * pow2(s + 1) == q * pow2(s)) by (nonlinear_arith)
        requires
            q % 2 == 0,
            pow2(s + 1) == 2 * pow2(s),
    ;
    lemma2_to64();
    if s >= 30 {
        if s > 30 {
            lemma_pow2_strictly_increases(30, s);
        }
        assert(q * pow2(s) >= 2 * pow2(30)) by (nonlinear_arith)
            requires
                q >= 2,
                pow2(s) >= pow2(30),
        ;
    }
}

/// With `P` prime, `a^(P-2)` is the inverse of a nonzero `a`.
pub proof fn lemma_inverse_by_fermat(a: int, p: int)
    requires
        is_prime(p),
        p >= 2,
        0 < a < p,
    ensures
        (a * (pow(a, (p - 2) as nat) % p)) % p == 1,
{
    lemma_small_mod(a as nat, p as nat);
    lemma_fermat_unit(p, a);
    lemma_pow_unfold(a, (p - 2) as nat);
    assert((p - 2) as nat + 1 == (p - 1) as nat);
    lemma_mul_mod_both(a, pow(a, (p - 2) as nat), p);
}

/// `(a * b^-1) * b == a` modulo a prime.
proof fn lemma_div_undoes_mul(a: int, b: int, binv: int, p: int)
    requires
        is_prime(p),
        0 <= a < p,
        (b * binv) % p == 1,
    ensures
        (((a * binv) % p) * b) % p == a,
{
    lemma_mul_mod_both(a * binv, b, p);
    assert((a * binv) * b == a * (b * binv)) by (nonlinear_arith);
    lemma_mul_mod_both(a, b * binv, p);
    assert(a * 1 == a);
    lemma_small_mod(a as nat, p as nat);
}

/// For `P % 4 == 3`, `a^((P+1)/4)` squares to a residue `a`.
proof fn lemma_sqrt_three_mod_four(a: int, p: int)
    requires
        p >= 2,
        p % 4 == 3,
        0 < a < p,
        euler_value(a, p) == 1,
    ensures
        ((pow(a, ((p + 1) / 4) as nat) % p) * (pow(a, ((p + 1) / 4) as nat) % p)) % p == a,
{
    let k = ((p + 1) / 4) as nat;
    let h = ((p - 1) / 2) as nat;
    lemma_pow_mul_mod(a, k, k, p);
    assert(k + k == h + 1);
    lemma_pow_unfold(a, h);
    lemma_mul_mod_both(a, pow(a, h), p);
    assert(a * 1 == a);
    lemma_small_mod(a as nat, p as nat);
}

/// Squaring `t^(2^i)` gives `t^(2^(i+1))` modulo `p`.
proof fn lemma_pow_square_step(t: int, i: nat, p: int)
    requires
        p > 0,
    ensures
        ((pow(t, pow2(i)) % p) * (pow(t, pow2(i)) % p)) % p == pow(t, pow2(i + 1)) % p,
{
    lemma_pow_mul_mod(t, pow2(i), pow2(i), p);
    lemma_pow2_unfold(i + 1);
}

/// The loop invariant of Tonelli-Shanks holds on entry.
#[verifier::spinoff_prover]
proof fn lemma_tonelli_shanks_start(a: int, z: int, q: int, s: nat, p: int)
    requires
        is_prime(p),
        valid_modulus(p),
        p % 4 != 3,
        has_non_residue(p),
        0 < a < p,
        euler_value(a, p) == 1,
        2 <= z < p,
        !is_euler_square(z, p),
        q >= 1,
        q % 2 == 1,
        q * pow2(s) == p - 1,
        s < 32,
    ensures
        1 <= s,
        pow(pow(z, q as nat) % p, pow2((s - 1) as nat)) % p == p - 1,
        pow(pow(a, q as nat) % p, pow2((s - 1) as nat)) % p == 1,
        ((pow(a, ((q + 1) / 2) as nat) % p) * (pow(a, ((q + 1) / 2) as nat) % p)) % p == (a * (
        pow(a, q as nat) % p)) % p,
{
    // P is odd: the non-residue lies in [2, P), so P > 2
    assert(p % 2 == 1) by {
        if p % 2 == 0 {
            assert(p % 2 != 0 || p == 2);
        }
    }
    assert(s >= 1) by {
        if s == 0 {
            lemma_pow2(0);
            lemma_pow_unfold(2, 0);
        }
    }
    let h = ((p - 1) / 2) as nat;
    lemma_pow2_unfold(s);
    assert(q * pow2((s - 1) as nat) == h) by (nonlinear_arith)
        requires
            q * pow2(s) == p - 1,
            pow2(s) == 2 * pow2((s - 1) as nat),
            h == (p - 1) / 2,
    ;
    lemma_pow_pow_mod(z, q as nat, pow2((s - 1) as nat), p);
    lemma_pow_pow_mod(a, q as nat, pow2((s - 1) as nat), p);
    lemma_small_mod(z as nat, p as nat);
    lemma_euler_value_sign(z, p);
    let k = ((q + 1) / 2) as nat;
    lemma_pow_mul_mod(a, k, k, p);
    assert(k + k == q + 1);
    lemma_pow_unfold(a, q as nat);
    lemma_mul_mod_both(a, pow(a, q as nat), p);
}

/// One round of Tonelli-Shanks keeps its loop invariant and lowers `m`.
proof fn lemma_tonelli_shanks_step(
    a: int,
    c: int,
    t: int,
    r: int,
    b: int,
    m: nat,
    i: nat,
    p: int,
)
    requires
        is_prime(p),
        valid_modulus(p),
        1 <= i < m,
        0 <= c < p,
        0 <= t < p,
        0 <= r < p,
        b == pow(c, pow2((m - i - 1) as nat)) % p,
        pow(c, pow2((m - 1) as nat)) % p == p - 1,
        pow(t, pow2(i)) % p == 1,
        pow(t, pow2((i - 1) as nat)) % p != 1,
        (r * r) % p == (a * t) % p,
    ensures
        pow((b * b) % p, pow2((i - 1) as nat)) % p == p - 1,
        pow((t * ((b * b) % p)) % p, pow2((i - 1) as nat)) % p == 1,
        (((r * b) % p) * ((r * b) % p)) % p == (a * ((t * ((b * b) % p)) % p)) % p,
{
    let e = pow2((m - i - 1) as nat);
    let f = pow2((i - 1) as nat);
    // (b^2)^(2^(i-1)) == c^(2^(m-1))
    lemma_pow2_adds((m - i - 1) as nat, 1);
    lemma_pow2_adds((m - i) as nat, (i - 1) as nat);
    lemma_pow2(1);
    lemma_pow_unfold(2, 0);
    lemma_pow_unfold(2, 1);
    assert(pow2(((m - i - 1) + 1) as nat) == e * 2);
    assert((m - i) as nat + (i - 1) as nat == (m - 1) as nat);
    lemma_pow_mul_mod(c, e, e, p);
    lemma_pow_mod_base(b * b, f, p);
    lemma_mul_mod_both(pow(c, e), pow(c, e), p);
    lemma_pow_adds(c, e, e);
    assert(e + e == pow2((m - i) as nat));
    lemma_pow_pow_mod(c, pow2((m - i) as nat), f, p);
    assert(pow((b * b) % p, f) % p == pow(c, pow2((m - 1) as nat)) % p) by {
        lemma_pow_mod_base(b * b, f, p);
        lemma_pow_mod_base(pow(c, e + e), f, p);
    }
    // t^(2^(i-1)) is a square root of one other than one
    lemma_pow2_unfold(i);
    lemma_pow_mul_mod(t, f, f, p);
    assert(f + f == pow2(i));
    lemma_square_root_of_one(pow(t, f) % p, p);
    lemma_mod_range(pow(t, f), p);
    // (t * b^2)^(2^(i-1)) == (-1) * (-1)
    lemma_pow_of_product_mod(t, (b * b) % p, f, p);
    let u = pow(t, f) % p;
    let v = pow((b * b) % p, f) % p;
    assert((u * v) % p == 1) by {
        assert((p - 1) * (p - 1) == p * (p - 2) + 1) by (nonlinear_arith);
        lemma_mod_multiples_vanish(p - 2, 1, p);
        lemma_small_mod(1, p as nat);
    }
    // (r b)^2 == a t b^2
    lemma_mul_mod_both(r * b, r * b, p);
    assert((r * b) * (r * b) == (r * r) * (b * b)) by (nonlinear_arith);
    lemma_mul_mod_both(r * r, b * b, p);
    lemma_mul_mod_both(a * t, b * b, p);
    assert((a * t) * (b * b) == a * (t * (b * b))) by (nonlinear_arith);
    lemma_mul_mod_both(a, t * (b * b), p);
    lemma_mul_mod_both(t, b * b, p);
    lemma_mul_mod_both(a, t * ((b * b) % p), p);
}

// =============================================================================
// The quadratic extension: specification
// =============================================================================

/// A pair of integers read as `c0 + c1 * x` in `Z[x] / (x^2 - d)`, with every
/// coordinate reduced modulo `p` by the operations below.
pub open spec fn f2_reduced(a: (int, int), p: int) -> bool {
    0 <= a.0 < p && 0 <= a.1 < p
}

pub open spec fn f2_add(a: (int, int), b: (int, int), p: int) -> (int, int) {
    ((a.0 + b.0) % p, (a.1 + b.1) % p)
}

pub open spec fn f2_sub(a: (int, int), b: (int, int), p: int) -> (int, int) {
    ((a.0 - b.0) % p, (a.1 - b.1) % p)
}

pub open spec fn f2_neg(a: (int, int), p: int) -> (int, int) {
    ((-a.0) % p, (-a.1) % p)
}

/// `(a0 + a1 x)(b0 + b1 x) = (a0 b0 + d a1 b1) + (a0 b1 + a1 b0) x`.
pub open spec fn f2_mul(a: (int, int), b: (int, int), d: int, p: int) -> (int, int) {
    ((a.0 * b.0 + d * (a.1 * b.1)) % p, (a.0 * b.1 + a.1 * b.0) % p)
}

/// The conjugate `a0 - a1 x`.
pub open spec fn f2_conj(a: (int, int), p: int) -> (int, int) {
    (a.0, (-a.1) % p)
}

/// The norm `a0^2 - d a1^2`.
pub open spec fn f2_norm(a: (int, int), d: int, p: int) -> int {
    (a.0 * a.0 - d * (a.1 * a.1)) % p
}

/// The norm of `a` is `a` times its conjugate, and the norm is
/// multiplicative: `norm(a b) == norm(a) norm(b)`.
pub proof fn lemma_f2_norm_laws(a: (int, int), b: (int, int), d: int, p: int)
    requires
        p > 0,
    ensures
        f2_mul(a, f2_conj(a, p), d, p) == (f2_norm(a, d, p), 0int),
        f2_norm(f2_mul(a, b, d, p), d, p) == (f2_norm(a, d, p) * f2_norm(b, d, p)) % p,
{
    let (a0, a1) = a;
    let (b0, b1) = b;
    // a conj(a)
    let na1 = (-a1) % p;
    lemma_mod_range(-a1, p);
    lemma_mul_cong(a1, na1, a1, -a1, p);
    lemma_mul_cong(d, a1 * na1, d, a1 * (-a1), p);
    lemma_mod_range(a0 * a0, p);
    lemma_add_cong(a0 * a0, d * (a1 * na1), a0 * a0, d * (a1 * (-a1)), p);
    assert(d * (a1 * (-a1)) == -(d * (a1 * a1))) by (nonlinear_arith);
    lemma_mul_cong(a0, na1, a0, -a1, p);
    lemma_mod_range(a1 * a0, p);
    lemma_add_cong(a0 * na1, a1 * a0, a0 * (-a1), a1 * a0, p);
    assert(a0 * (-a1) + a1 * a0 == 0) by (nonlinear_arith);
    vstd::arithmetic::div_mod::lemma_small_mod(0, p as nat);
    // norm(a b)
    let x = a0 * b0 + d * (a1 * b1);
    let y = a0 * b1 + a1 * b0;
    let c0 = x % p;
    let c1 = y % p;
    lemma_mod_range(x, p);
    lemma_mod_range(y, p);
    lemma_mul_cong(c0, c0, x, x, p);
    lemma_mul_cong(c1, c1, y, y, p);
    lemma_mul_cong(d, c1 * c1, d, y * y, p);
    lemma_sub_cong(c0 * c0, d * (c1 * c1), x * x, d * (y * y), p);
    let na = a0 * a0 - d * (a1 * a1);
    let nb = b0 * b0 - d * (b1 * b1);
    let p1 = a0 * b0;
    let p2 = a1 * b1;
    let q1 = a0 * b1;
    let q2 = a1 * b0;
    let aa0 = a0 * a0;
    let aa1 = a1 * a1;
    let bb0 = b0 * b0;
    let bb1 = b1 * b1;
    assert(x * x == p1 * p1 + 2 * (d * (p1 * p2)) + (d * d) * (p2 * p2)) by (nonlinear_arith)
        requires
            x == p1 + d * p2,
    ;
    assert(y * y == q1 * q1 + 2 * (q1 * q2) + q2 * q2) by (nonlinear_arith)
        requires
            y == q1 + q2,
    ;
    assert(p1 * p2 == q1 * q2) by (nonlinear_arith)
        requires
            p1 == a0 * b0,
            p2 == a1 * b1,
            q1 == a0 * b1,
            q2 == a1 * b0,
    ;
    assert(p1 * p1 == aa0 * bb0 && p2 * p2 == aa1 * bb1 && q1 * q1 == aa0 * bb1 && q2 * q2 == aa1 * bb0) by (nonlinear_arith)
        requires
            p1 == a0 * b0,
            p2 == a1 * b1,
            q1 == a0 * b1,
            q2 == a1 * b0,
            aa0 == a0 * a0,
            aa1 == a1 * a1,
            bb0 == b0 * b0,
            bb1 == b1 * b1,
    ;
    let u = d * aa1;
    let v = d * bb1;
    assert(na * nb == aa0 * bb0 - aa0 * v - u * bb0 + u * v) by (nonlinear_arith)
        requires
            na == aa0 - u,
            nb == bb0 - v,
    ;
    assert(aa0 * v == d * (aa0 * bb1)) by (nonlinear_arith)
        requires
            v == d * bb1,
    ;
    assert(u * bb0 == d * (aa1 * bb0)) by (nonlinear_arith)
        requires
            u == d * aa1,
    ;
    assert(u * v == (d * d) * (aa1 * bb1)) by (nonlinear_arith)
        requires
            u == d * aa1,
            v == d * bb1,
    ;
    let s = q1 * q1 + 2 * (q1 * q2) + q2 * q2;
    assert(d * s == d * (q1 * q1) + 2 * (d * (q1 * q2)) + d * (q2 * q2)) by (nonlinear_arith)
        requires
            s == q1 * q1 + 2 * (q1 * q2) + q2 * q2,
    ;
    assert(x * x - d * (y * y) == na * nb);
    lemma_mul_mod_both(na, nb, p);
}

/// The candidate inverse `conj(a) * norm(a)^(p-2)`.
pub open spec fn f2_inverse(a: (int, int), d: int, p: int) -> (int, int) {
    let ni = pow(f2_norm(a, d, p), (p - 2) as nat) % p;
    ((a.0 * ni) % p, (((-a.1) % p) * ni) % p)
}

pub open spec fn f2_mul_op(d: int, p: int) -> spec_fn((int, int), (int, int)) -> (int, int) {
    |x: (int, int), y: (int, int)| f2_mul(x, y, d, p)
}

/// `a^n` in `Z[x] / (p, x^2 - d)`.
pub open spec fn f2_pow(a: (int, int), n: nat, d: int, p: int) -> (int, int) {
    mpow(f2_mul_op(d, p), (1, 0), a, n)
}

/// Coordinates congruent modulo `p` give the same product.
pub proof fn lemma_f2_mul_cong(
    a: (int, int),
    b: (int, int),
    a2: (int, int),
    b2: (int, int),
    d: int,
    p: int,
)
    requires
        p > 0,
        a.0 % p == a2.0 % p,
        a.1 % p == a2.1 % p,
        b.0 % p == b2.0 % p,
        b.1 % p == b2.1 % p,
    ensures
        f2_mul(a, b, d, p) == f2_mul(a2, b2, d, p),
{
    lemma_mul_cong(a.0, b.0, a2.0, b2.0, p);
    lemma_mul_cong(a.1, b.1, a2.1, b2.1, p);
    lemma_mul_cong(d, a.1 * b.1, d, a2.1 * b2.1, p);
    lemma_add_cong(a.0 * b.0, d * (a.1 * b.1), a2.0 * b2.0, d * (a2.1 * b2.1), p);
    lemma_mul_cong(a.0, b.1, a2.0, b2.1, p);
    lemma_mul_cong(a.1, b.0, a2.1, b2.0, p);
    lemma_add_cong(a.0 * b.1, a.1 * b.0, a2.0 * b2.1, a2.1 * b2.0, p);
}

/// `a * (b * c) == (a * b) * c` and the commuted forms used below.
proof fn lemma_mul3(a: int, b: int, c: int)
    ensures
        a * (b * c) == (a * b) * c,
        a * (b * c) == b * (a * c),
        (a * b) * c == a * (c * b),
{
    lemma_mul_is_associative(a, b, c);
    lemma_mul_is_associative(b, a, c);
    lemma_mul_is_commutative(a, b);
    lemma_mul_is_commutative(b, c);
}

/// `a * (b + c)` and `(b + c) * a` expand.
proof fn lemma_distrib(a: int, b: int, c: int)
    ensures
        a * (b + c) == a * b + a * c,
        (b + c) * a == b * a + c * a,
{
    lemma_mul_is_distributive_add(a, b, c);
    lemma_mul_is_distributive_add_other_way(a, b, c);
}

/// The polynomial identities behind associativity in the quadratic extension.
proof fn lemma_f2_assoc_identity(x0: int, x1: int, y0: int, y1: int, z0: int, z1: int, d: int)
    ensures
        (x0 * y0 + d * (x1 * y1)) * z0 + d * ((x0 * y1 + x1 * y0) * z1) == x0 * (y0 * z0 + d * (
        y1 * z1)) + d * (x1 * (y0 * z1 + y1 * z0)),
        (x0 * y0 + d * (x1 * y1)) * z1 + (x0 * y1 + x1 * y0) * z0 == x0 * (y0 * z1 + y1 * z0) + x1
            * (y0 * z0 + d * (y1 * z1)),
{
    // first coordinate
    lemma_distrib(z0, x0 * y0, d * (x1 * y1));
    lemma_mul3(x0, y0, z0);
    lemma_mul3(d, x1 * y1, z0);
    lemma_mul3(x1, y1, z0);
    lemma_distrib(z1, x0 * y1, x1 * y0);
    lemma_distrib(d, (x0 * y1) * z1, (x1 * y0) * z1);
    lemma_mul3(x0, y1, z1);
    lemma_mul3(x1, y0, z1);
    lemma_distrib(x0, y0 * z0, d * (y1 * z1));
    lemma_mul3(x0, d, y1 * z1);
    lemma_distrib(x1, y0 * z1, y1 * z0);
    lemma_distrib(d, x1 * (y0 * z1), x1 * (y1 * z0));
    // second coordinate
    lemma_distrib(z1, x0 * y0, d * (x1 * y1));
    lemma_mul3(x0, y0, z1);
    lemma_mul3(d, x1 * y1, z1);
    lemma_mul3(x1, y1, z1);
    lemma_distrib(z0, x0 * y1, x1 * y0);
    lemma_mul3(x0, y1, z0);
    lemma_mul3(x1, y0, z0);
    lemma_distrib(x0, y0 * z1, y1 * z0);
    lemma_distrib(x1, y0 * z0, d * (y1 * z1));
    lemma_mul3(x1, d, y1 * z1);
}

/// Multiplication in the quadratic extension is associative.
pub proof fn lemma_f2_mul_assoc(x: (int, int), y: (int, int), z: (int, int), d: int, p: int)
    requires
        p > 0,
    ensures
        f2_mul(f2_mul(x, y, d, p), z, d, p) == f2_mul(x, f2_mul(y, z, d, p), d, p),
{
    let u = (x.0 * y.0 + d * (x.1 * y.1), x.0 * y.1 + x.1 * y.0);
    let v = (y.0 * z.0 + d * (y.1 * z.1), y.0 * z.1 + y.1 * z.0);
    lemma_mod_range(u.0, p);
    lemma_mod_range(u.1, p);
    lemma_mod_range(v.0, p);
    lemma_mod_range(v.1, p);
    lemma_f2_mul_cong(f2_mul(x, y, d, p), z, u, z, d, p);
    lemma_f2_mul_cong(x, f2_mul(y, z, d, p), x, v, d, p);
    lemma_f2_assoc_identity(x.0, x.1, y.0, y.1, z.0, z.1, d);
}

/// Multiplication in the quadratic extension is commutative.
pub proof fn lemma_f2_mul_comm(x: (int, int), y: (int, int), d: int, p: int)
    ensures
        f2_mul(x, y, d, p) == f2_mul(y, x, d, p),
{
    assert(x.0 * y.0 == y.0 * x.0) by (nonlinear_arith);
    assert(x.1 * y.1 == y.1 * x.1) by (nonlinear_arith);
    assert(x.0 * y.1 + x.1 * y.0 == y.0 * x.1 + y.1 * x.0) by (nonlinear_arith);
}

/// `1` is a unit for reduced elements.
pub proof fn lemma_f2_mul_one(x: (int, int), d: int, p: int)
    requires
        p >= 2,
        f2_reduced(x, p),
    ensures
        f2_mul(x, (1, 0), d, p) == x,
        f2_mul((1, 0), x, d, p) == x,
{
    assert(x.0 * 1 + d * (x.1 * 0) == x.0) by (nonlinear_arith);
    assert(x.0 * 0 + x.1 * 1 == x.1) by (nonlinear_arith);
    assert(1 * x.0 + d * (0 * x.1) == x.0) by (nonlinear_arith);
    assert(1 * x.1 + 0 * x.0 == x.1) by (nonlinear_arith);
    lemma_small_mod(x.0 as nat, p as nat);
    lemma_small_mod(x.1 as nat, p as nat);
}

/// Products are reduced.
pub proof fn lemma_f2_mul_reduced(x: (int, int), y: (int, int), d: int, p: int)
    requires
        p > 0,
    ensures
        f2_reduced(f2_mul(x, y, d, p), p),
{
    lemma_mod_range(x.0 * y.0 + d * (x.1 * y.1), p);
    lemma_mod_range(x.0 * y.1 + x.1 * y.0, p);
}

/// The quadratic extension is a commutative monoid under multiplication.
pub proof fn lemma_f2_monoid(d: int, p: int)
    requires
        p >= 2,
    ensures
        monoid_laws(f2_mul_op(d, p), (1, 0)),
{
    let op = f2_mul_op(d, p);
    assert forall|x: (int, int), y: (int, int), z: (int, int)| #[trigger] op(op(x, y), z) == op(
        x,
        op(y, z),
    ) by {
        lemma_f2_mul_assoc(x, y, z, d, p);
    }
    assert forall|x: (int, int), y: (int, int)| #[trigger] op(x, y) == op(y, x) by {
        lemma_f2_mul_comm(x, y, d, p);
    }
    assert forall|x: (int, int), y: (int, int)| #[trigger] op(op(x, y), (1, 0)) == op(x, y) by {
        lemma_f2_mul_reduced(x, y, d, p);
        lemma_f2_mul_one(f2_mul(x, y, d, p), d, p);
    }
    lemma_f2_mul_one((1, 0), d, p);
}

/// With `p` prime, `a * f2_inverse(a) == 1` whenever the norm of `a` is nonzero.
pub proof fn lemma_f2_inverse(a: (int, int), d: int, p: int)
    requires
        is_prime(p),
        valid_modulus(p),
        f2_reduced(a, p),
        f2_norm(a, d, p) != 0,
    ensures
        f2_mul(a, f2_inverse(a, d, p), d, p) == (1int, 0int),
{
    let n = f2_norm(a, d, p);
    lemma_mod_range(a.0 * a.0 - d * (a.1 * a.1), p);
    lemma_inverse_by_fermat(n, p);
    let ni = pow(n, (p - 2) as nat) % p;
    let x = f2_inverse(a, d, p);
    let w = (a.0 * ni, (-a.1) * ni);
    lemma_mod_range(a.0 * ni, p);
    lemma_mod_range(-a.1, p);
    lemma_mul_cong((-a.1) % p, ni, -a.1, ni, p);
    lemma_mod_range((-a.1) * ni, p);
    lemma_f2_mul_cong(a, x, a, w, d, p);
    let (a0, a1) = (a.0, a.1);
    assert(a0 * (a0 * ni) + d * (a1 * ((-a1) * ni)) == (a0 * a0 - d * (a1 * a1)) * ni)
        by (nonlinear_arith);
    assert(a0 * ((-a1) * ni) + a1 * (a0 * ni) == 0) by (nonlinear_arith);
    lemma_mul_cong(a.0 * a.0 - d * (a.1 * a.1), ni, n, ni, p);
    lemma_mod_range(a.0 * a.0 - d * (a.1 * a.1), p);
    lemma_small_mod(0, p as nat);
}

/// A root tried by the square-root algorithm of `Fp2`: with `s^2 = a^2 - d b^2`,
/// `h = (a + sg s) / 2`, `x^2 = h` and `y = b / (2x)`, the square of
/// `x + y X` is `a + b X`.
pub proof fn lemma_attempt_root(a: int, b: int, s: int, d: int, x: int, y: int, h: int, inv2: int, sg: int, p: int)
    requires
        is_prime(p),
        p > 2,
        0 <= a < p,
        0 <= b < p,
        (s * s) % p == (a * a - d * (b * b)) % p,
        (2 * inv2) % p == 1,
        sg == 1 || sg == -1,
        h == (((a + sg * s) % p) * inv2) % p,
        (x * x) % p == h,
        x % p != 0,
        (y * ((x + x) % p)) % p == b,
    ensures
        (x * x + d * (y * y)) % p == a,
        (x * y + y * x) % p == b,
{
    let u = x + x;
    let w = a + sg * s;
    let xx = x * x;
    let yy = y * y;
    let t = xx + d * yy;
    // u * y == b
    lemma_mul_mod_both(y, u, p);
    assert(y * u == u * y) by (nonlinear_arith);
    assert((u * y) % p == b);
    assert(x * y + y * x == u * y) by (nonlinear_arith)
        requires
            u == x + x,
    ;
    // 2 h == w
    lemma_mod_range(h, p);
    lemma_mod_range(w, p);
    lemma_mul_mod_both(w % p, inv2, p);
    lemma_mod_range((w % p) * inv2, p);
    lemma_small_mod(1, p as nat);
    lemma_mul_cong(2, h, 2, (w % p) * inv2, p);
    assert(2 * ((w % p) * inv2) == (w % p) * (2 * inv2)) by (nonlinear_arith);
    lemma_mul_cong(w % p, 2 * inv2, w, 1, p);
    assert((2 * h) % p == w % p);
    // u^2 t == 4 h^2 + d b^2
    assert(u * u * t == 4 * xx * xx + d * ((u * y) * (u * y))) by (nonlinear_arith)
        requires
            u == x + x,
            xx == x * x,
            yy == y * y,
            t == xx + d * yy,
    ;
    lemma_small_mod(h as nat, p as nat);
    lemma_mul_cong(4, xx, 4, h, p);
    lemma_mul_cong(4 * xx, xx, 4 * h, h, p);
    lemma_small_mod(b as nat, p as nat);
    lemma_mul_cong(u * y, u * y, b, b, p);
    lemma_mul_cong(d, (u * y) * (u * y), d, b * b, p);
    lemma_add_cong(4 * xx * xx, d * ((u * y) * (u * y)), 4 * h * h, d * (b * b), p);
    // 4 h^2 == w^2
    assert(4 * h * h == (2 * h) * (2 * h)) by (nonlinear_arith);
    lemma_mul_cong(2 * h, 2 * h, w, w, p);
    lemma_add_cong(4 * h * h, d * (b * b), w * w, d * (b * b), p);
    // w^2 + d b^2 == 2 a w, using s^2 == a^2 - d b^2
    assert(w * w + d * (b * b) == s * s + (a * a + 2 * sg * a * s + d * (b * b))) by (nonlinear_arith)
        requires
            w == a + sg * s,
            sg * sg == 1,
    ;
    lemma_add_cong(s * s, a * a + 2 * sg * a * s + d * (b * b), a * a - d * (b * b), a * a + 2 * sg * a * s + d * (b * b), p);
    assert((a * a - d * (b * b)) + (a * a + 2 * sg * a * s + d * (b * b)) == a * (2 * w)) by (nonlinear_arith)
        requires
            w == a + sg * s,
    ;
    // 2 a w == 4 h a == u^2 a
    lemma_mul_cong(2, w, 2, 2 * h, p);
    assert(2 * (2 * h) == 4 * h);
    lemma_mul_cong(a, 2 * w, a, 4 * h, p);
    assert(u * u * a == 4 * xx * a) by (nonlinear_arith)
        requires
            u == x + x,
            xx == x * x,
    ;
    lemma_mul_cong(4 * xx, a, 4 * h, a, p);
    assert(a * (4 * h) == 4 * h * a) by (nonlinear_arith);
    assert((u * u * t) % p == (u * u * a) % p);
    // cancel u^2, a unit
    lemma_small_mod(2, p as nat);
    assert(u == 2 * x);
    crate::modular::lemma_unit_product(2, x, p);
    crate::modular::lemma_unit_product(u, u, p);
    assert(u * u * t == (u * u) * t && u * u * a == (u * u) * a) by (nonlinear_arith);
    crate::modular::lemma_cancel_factor(u * u, t, a, p);
    lemma_small_mod(a as nat, p as nat);
}

/// When neither half `(a +- s) / 2` of the square-root algorithm of `Fp2` is a
/// nonzero square in `Fp`, the element is `a + 0 X` with `a` a non-residue.
pub proof fn lemma_fallback(a: int, b: int, s: int, d: int, inv2: int, h1: int, h2: int, p: int)
    requires
        is_prime(p),
        p % 2 == 1,
        0 <= a < p,
        0 <= b < p,
        0 <= s < p,
        0 <= d < p,
        (a, b) != (0int, 0int),
        (s * s) % p == (a * a - d * (b * b)) % p,
        !is_euler_square(d, p),
        (2 * inv2) % p == 1,
        h1 == (((a + s) % p) * inv2) % p,
        h2 == (((a - s) % p) * inv2) % p,
        h1 == 0 || !is_euler_square(h1, p),
        h2 == 0 || !is_euler_square(h2, p),
    ensures
        b == 0,
        a != 0,
        !is_euler_square(a, p),
{
    assert(p > 2) by {
        assert(p % 2 == 1);
        if p == 2 {
            assert(false);
        }
    }
    lemma_small_mod(1, p as nat);
    lemma_small_mod(0, p as nat);
    lemma_mod_range(a + s, p);
    lemma_mod_range(a - s, p);
    // h1 == (a + s) inv2 and h2 == (a - s) inv2 modulo p
    lemma_mul_cong((a + s) % p, inv2, a + s, inv2, p);
    lemma_mul_cong((a - s) % p, inv2, a - s, inv2, p);
    lemma_mod_range(((a + s) % p) * inv2, p);
    lemma_mod_range(((a - s) % p) * inv2, p);
    assert(d % p != 0) by {
        lemma_small_mod(d as nat, p as nat);
    }
    assert(inv2 % p != 0) by {
        if inv2 % p == 0 {
            lemma_mul_mod_both(2, inv2, p);
            lemma_mul_cong(2, inv2 % p, 2, 0, p);
        }
    }
    if b != 0 {
        lemma_small_mod(b as nat, p as nat);
        let wv = b * inv2;
        crate::modular::lemma_unit_product(b, inv2, p);
        // h1 h2 == d (b inv2)^2
        lemma_mul_cong(h1, h2, (a + s) * inv2, (a - s) * inv2, p);
        assert(((a + s) * inv2) * ((a - s) * inv2) == (a * a - s * s) * (inv2 * inv2)) by (nonlinear_arith);
        lemma_sub_cong(a * a, s * s, a * a, a * a - d * (b * b), p);
        assert(a * a - (a * a - d * (b * b)) == d * (b * b));
        lemma_mul_cong(a * a - s * s, inv2 * inv2, d * (b * b), inv2 * inv2, p);
        assert((d * (b * b)) * (inv2 * inv2) == d * (wv * wv)) by (nonlinear_arith)
            requires
                wv == b * inv2,
        ;
        assert((h1 * h2) % p == (d * (wv * wv)) % p);
        // Euler values
        crate::modular::lemma_unit_product(wv, wv, p);
        crate::modular::lemma_unit_product(d, wv * wv, p);
        crate::modular::lemma_euler_mul(d, wv * wv, p);
        crate::modular::lemma_square_passes_euler(wv, p);
        crate::modular::lemma_euler_nonsquare(d, p);
        crate::modular::lemma_euler_value_sign(wv * wv, p);
        crate::modular::lemma_sign_product(euler_value(d, p), euler_value(wv * wv, p), p);
        crate::modular::lemma_euler_mod(d * (wv * wv), p);
        crate::modular::lemma_euler_mod(h1 * h2, p);
        assert(euler_value(h1 * h2, p) == p - 1);
        assert((h1 * h2) % p != 0) by {
            lemma_mod_range(d * (wv * wv), p);
        }
        assert(h1 != 0 && h2 != 0) by {
            if h1 == 0 || h2 == 0 {
                assert(h1 * h2 == 0);
            }
        }
        lemma_small_mod(h1 as nat, p as nat);
        lemma_small_mod(h2 as nat, p as nat);
        crate::modular::lemma_euler_nonsquare(h1, p);
        crate::modular::lemma_euler_nonsquare(h2, p);
        crate::modular::lemma_euler_mul(h1, h2, p);
        crate::modular::lemma_sign_product(euler_value(h1, p), euler_value(h2, p), p);
        assert(false);
    }
    assert(a != 0);
    lemma_small_mod(a as nat, p as nat);
    // s == a or s == -a
    assert(b == 0);
    assert(d * (b * b) == 0) by (nonlinear_arith)
        requires
            b == 0,
    ;
    assert((s * s) % p == (a * a) % p);
    crate::modular::lemma_mod_eq_iff_diff(s * s, a * a, p);
    assert(s * s - a * a == (s - a) * (s + a)) by (nonlinear_arith);
    crate::modular::lemma_euclid(s - a, s + a, p);
    if (s - a) % p == 0 {
        // h1 == 2a inv2 == a
        crate::modular::lemma_mod_eq_iff_diff(s, a, p);
        lemma_small_mod(s as nat, p as nat);
        assert(s == a);
        assert((a + s) * inv2 == a * (2 * inv2)) by (nonlinear_arith)
            requires
                s == a,
        ;
        lemma_mul_cong(a, 2 * inv2, a, 1, p);
        assert(h1 == a);
    } else {
        // h2 == 2a inv2 == a
        assert((s + a) % p == 0);
        assert((a - s) % p == (a + a) % p) by {
            crate::modular::lemma_mod_eq_iff_diff(a - s, a + a, p);
            assert((a - s) - (a + a) == -(s + a));
            lemma_mod_range(s + a, p);
            assert((-(s + a)) % p == 0) by {
                let q = (s + a) / p;
                vstd::arithmetic::div_mod::lemma_fundamental_div_mod(s + a, p);
                assert(-(s + a) == (-q) * p) by (nonlinear_arith)
                    requires
                        s + a == p * q + 0,
                ;
                crate::modular::lemma_multiple_mod(-q, p);
            }
        }
        lemma_mul_cong(a - s, inv2, a + a, inv2, p);
        assert((a + a) * inv2 == a * (2 * inv2)) by (nonlinear_arith);
        lemma_mul_cong(a, 2 * inv2, a, 1, p);
        assert(h2 == a);
    }
}

/// A quotient of two non-residues is a residue.
pub proof fn lemma_quotient_square(a: int, d: int, dinv: int, p: int)
    requires
        is_prime(p),
        p % 2 == 1,
        a % p != 0,
        d % p != 0,
        !is_euler_square(a, p),
        !is_euler_square(d, p),
        (d * dinv) % p == 1,
    ensures
        is_euler_square((a * dinv) % p, p),
{
    assert(p > 2) by {
        if p == 2 {
            assert(false);
        }
    }
    lemma_small_mod(1, p as nat);
    assert(dinv % p != 0) by {
        if dinv % p == 0 {
            lemma_mul_mod_both(d, dinv, p);
            assert(d * (dinv % p) == 0) by (nonlinear_arith)
                requires
                    dinv % p == 0,
            ;
            lemma_small_mod(0, p as nat);
        }
    }
    crate::modular::lemma_euler_mul(d, dinv, p);
    vstd::arithmetic::power::lemma1_pow(((p - 1) / 2) as nat);
    assert(euler_value(1, p) == 1);
    crate::modular::lemma_euler_nonsquare(d, p);
    crate::modular::lemma_euler_nonsquare(a, p);
    crate::modular::lemma_euler_value_sign(dinv, p);
    crate::modular::lemma_sign_product(euler_value(d, p), euler_value(dinv, p), p);
    crate::modular::lemma_euler_mul(a, dinv, p);
    crate::modular::lemma_sign_product(euler_value(a, p), euler_value(dinv, p), p);
}

// =============================================================================
// Fp2
// =============================================================================

/// Quadratic extension field over `Fp` defined by the relation `x^2 = D`.
///
/// For primes `p` where `p % 4 == 3` this corresponds to `D = p - 1` (i.e. `x^2 + 1`).
/// Otherwise choose a small quadratic non-residue `D` so that `x^2 - D` is irreducible.
#[derive(Copy, Clone, Debug, PartialEq, Eq, PartialOrd, Ord, Hash)]
pub struct Fp2<const P: u32, const D: u32> {
    pub c0: Fp<P>,
    pub c1: Fp<P>,
}

impl<const P: u32, const D: u32> View for Fp2<P, D> {
    type V = (int, int);

    open spec fn view(&self) -> (int, int) {
        (self.c0@, self.c1@)
    }
}

impl<const P: u32> Fp<P> {
    /// The inverse of two.
    pub fn two_inv() -> (r: Self)
        requires
            valid_modulus(P as int),
            P >= 3,
        ensures
            r@ == pow(2, (P - 2) as nat) % (P as int),
            is_prime(P as int) ==> (2 * r@) % (P as int) == 1,
    {
        (Self { value: 2 }).inv()
    }
}

/// The residue `D mod P` that defines the quadratic extension.
pub open spec fn dmod(d: u32, p: u32) -> int {
    (d as int) % (p as int)
}

impl<const P: u32, const D: u32> Fp2<P, D> {
    /// The residue of `D` in `Fp`.
    pub fn d_fp() -> (r: Fp<P>)
        requires
            valid_modulus(P as int),
        ensures
            r@ == dmod(D, P),
    {
        Fp::<P>::new(D)
    }

    /// The additive identity.
    pub fn zero() -> (r: Self)
        requires
            valid_modulus(P as int),
        ensures
            r@ == (0int, 0int),
    {
        Self { c0: Fp::zero(), c1: Fp::zero() }
    }

    /// The multiplicative identity.
    pub fn one() -> (r: Self)
        requires
            valid_modulus(P as int),
        ensures
            r@ == (1int, 0int),
    {
        Self { c0: Fp::one(), c1: Fp::zero() }
    }

    pub fn new(c0: Fp<P>, c1: Fp<P>) -> (r: Self)
        ensures
            r@ == (c0@, c1@),
    {
        Self { c0, c1 }
    }

    pub fn is_zero(&self) -> (r: bool)
        ensures
            r == (self@ == (0int, 0int)),
    {
        self.c0.is_zero() && self.c1.is_zero()
    }

    /// The coordinates of an element are reduced, and `P` is a valid modulus.
    pub(crate) fn reduced(&self)
        ensures
            f2_reduced(self@, P as int),
            valid_modulus(P as int),
    {
        let _ = self.c0.value();
        let _ = self.c1.value();
    }

    pub fn add(self, rhs: Self) -> (r: Self)
        ensures
            r@ == f2_add(self@, rhs@, P as int),
    {
        Self { c0: self.c0.add(rhs.c0), c1: self.c1.add(rhs.c1) }
    }

    pub fn sub(self, rhs: Self) -> (r: Self)
        ensures
            r@ == f2_sub(self@, rhs@, P as int),
    {
        Self { c0: self.c0.sub(rhs.c0), c1: self.c1.sub(rhs.c1) }
    }

    pub fn neg(self) -> (r: Self)
        ensures
            r@ == f2_neg(self@, P as int),
    {
        Self { c0: self.c0.neg(), c1: self.c1.neg() }
    }

    /// Multiplication in Fp2 defined as Fp[x] / (x^2 - D)
    /// Formula: (a0 + a1*x)(b0 + b1*x) = (a0*b0 + a1*b1*D) + (a0*b1 + a1*b0)*x
    pub fn mul(self, rhs: Self) -> (r: Self)
        ensures
            r@ == f2_mul(self@, rhs@, dmod(D, P), P as int),
    {
        proof {
            use_type_invariant(&self.c0);
            use_type_invariant(&self.c1);
        }
        let r = Self {
            c0: self.c0.mul(rhs.c0).add(self.c1.mul(rhs.c1).mul(Self::d_fp())),
            c1: self.c0.mul(rhs.c1).add(self.c1.mul(rhs.c0)),
        };
        proof {
            let p = P as int;
            let d = dmod(D, P);
            let (a0, a1, b0, b1) = (self.c0@, self.c1@, rhs.c0@, rhs.c1@);
            lemma_mod_range(a0 * b0, p);
            lemma_mod_range(a1 * b1, p);
            lemma_mod_range(D as int, p);
            lemma_mul_cong((a1 * b1) % p, d, a1 * b1, D as int, p);
            lemma_mul_cong(a1 * b1, D as int, a1 * b1, d, p);
            assert((a1 * b1) * d == d * (a1 * b1)) by (nonlinear_arith);
            lemma_mod_range(d * (a1 * b1), p);
            lemma_add_cong((a0 * b0) % p, ((a1 * b1) % p * d) % p, a0 * b0, d * (a1 * b1), p);
            lemma_mod_range(a0 * b1, p);
            lemma_mod_range(a1 * b0, p);
            lemma_add_cong((a0 * b1) % p, (a1 * b0) % p, a0 * b1, a1 * b0, p);
        }
        r
    }

    /// `self^exp`, by square-and-multiply.
    pub fn pow(self, exp: u64) -> (r: Self)
        ensures
            r@ == f2_pow(self@, exp as nat, dmod(D, P), P as int),
    {
        proof {
            use_type_invariant(&self.c0);
            use_type_invariant(&self.c1);
        }
        let ghost a = self@;
        let ghost e0 = exp;
        let ghost op = f2_mul_op(dmod(D, P), P as int);
        let mut base = self;
        let mut exp = exp;
        let mut result = Self::one();
        proof {
            lemma_f2_monoid(dmod(D, P), P as int);
            lemma_f2_mul_one((1, 0), dmod(D, P), P as int);
            lemma_mpow_unit(op, (1int, 0int), a, e0 as nat);
            lemma_f2_mul_comm((1, 0), mpow(op, (1int, 0int), a, e0 as nat), dmod(D, P), P as int);
        }
        while exp > 0
            invariant
                valid_modulus(P as int),
                op == f2_mul_op(dmod(D, P), P as int),
                monoid_laws(op, (1int, 0int)),
                op(result@, (1int, 0int)) == result@,
                op(result@, mpow(op, (1int, 0int), base@, exp as nat)) == mpow(
                    op,
                    (1int, 0int),
                    a,
                    e0 as nat,
                ),
            decreases exp,
        {
            proof {
                assert(exp & 1 == exp % 2) by (bit_vector);
                assert(exp >> 1 == exp / 2) by (bit_vector);
                lemma_mpow_square_multiply_step(op, (1int, 0int), result@, base@, exp as nat);
            }
            if exp & 1 == 1 {
                let ghost old_result = result@;
                result = result.mul(base);
                proof {
                    assert(op(op(old_result, base@), (1int, 0int)) == op(old_result, base@));
                }
            }
            base = base.mul(base);
            exp >>= 1;
        }
        result
    }

    /// Conjugate of the Fp2 element `a - b*x`
    pub fn conjugate(self) -> (r: Self)
        ensures
            r@ == f2_conj(self@, P as int),
    {
        Self { c0: self.c0, c1: self.c1.neg() }
    }

    /// Norm of the Fp2 element `a^2 - b^2 * D`
    pub fn norm(self) -> (r: Fp<P>)
        ensures
            r@ == f2_norm(self@, dmod(D, P), P as int),
    {
        proof {
            use_type_invariant(&self.c0);
            use_type_invariant(&self.c1);
        }
        let r = self.c0.mul(self.c0).sub(self.c1.mul(self.c1).mul(Self::d_fp()));
        proof {
            let p = P as int;
            let d = dmod(D, P);
            let (a0, a1) = (self.c0@, self.c1@);
            lemma_mod_range(a0 * a0, p);
            lemma_mod_range(a1 * a1, p);
            lemma_mod_range(D as int, p);
            lemma_mul_cong((a1 * a1) % p, d, a1 * a1, D as int, p);
            lemma_mul_cong(a1 * a1, D as int, a1 * a1, d, p);
            assert((a1 * a1) * d == d * (a1 * a1)) by (nonlinear_arith);
            lemma_mod_range(d * (a1 * a1), p);
            lemma_sub_cong((a0 * a0) % p, ((a1 * a1) % p * d) % p, a0 * a0, d * (a1 * a1), p);
        }
        r
    }

    /// Multiplicative inverse using the norm and conjugate; `None` when the
    /// element or its norm is zero. With `P` prime the result is the inverse.
    pub fn inverse(self) -> (r: Option<Self>)
        ensures
            r is None <==> (self@ == (0int, 0int) || f2_norm(self@, dmod(D, P), P as int) == 0),
            r matches Some(x) ==> x@ == f2_inverse(self@, dmod(D, P), P as int),
            r matches Some(x) ==> (is_prime(P as int) ==> f2_mul(
                self@,
                x@,
                dmod(D, P),
                P as int,
            ) == (1int, 0int)),
    {
        proof {
            use_type_invariant(&self.c0);
            use_type_invariant(&self.c1);
        }
        if self.is_zero() {
            return None;
        }
        let norm_inv = match self.norm().inverse() {
            Some(v) => v,
            None => return None,
        };
        let r = Self { c0: self.c0.mul(norm_inv), c1: self.c1.neg().mul(norm_inv) };
        proof {
            if is_prime(P as int) {
                lemma_f2_inverse(self@, dmod(D, P), P as int);
            }
        }
        Some(r)
    }

    /// The inverse of an invertible element; callers exclude the others.
    pub fn inv(self) -> (r: Self)
        requires
            self@ != (0int, 0int),
            f2_norm(self@, dmod(D, P), P as int) != 0,
        ensures
            r@ == f2_inverse(self@, dmod(D, P), P as int),
            is_prime(P as int) ==> f2_mul(self@, r@, dmod(D, P), P as int) == (1int, 0int),
    {
        match self.inverse() {
            Some(x) => x,
            None => {
                proof {
                    assert(false);
                }
                self
            },
        }
    }

    /// `self * rhs^-1`, or `None` when `rhs` has no inverse.
    pub fn checked_div(self, rhs: Self) -> (r: Option<Self>)
        ensures
            r is None <==> (rhs@ == (0int, 0int) || f2_norm(rhs@, dmod(D, P), P as int) == 0),
            r matches Some(q) ==> q@ == f2_mul(
                self@,
                f2_inverse(rhs@, dmod(D, P), P as int),
                dmod(D, P),
                P as int,
            ),
            r matches Some(q) ==> (is_prime(P as int) ==> f2_mul(q@, rhs@, dmod(D, P), P as int)
                == self@),
    {
        match rhs.inverse() {
            Some(inv) => {
                let q = self.mul(inv);
                proof {
                    use_type_invariant(&self.c0);
                    use_type_invariant(&self.c1);
                    let d = dmod(D, P);
                    let p = P as int;
                    if is_prime(p) {
                        lemma_f2_mul_assoc(self@, inv@, rhs@, d, p);
                        lemma_f2_mul_comm(inv@, rhs@, d, p);
                        lemma_f2_mul_one(self@, d, p);
                    }
                }
                Some(q)
            },
            None => None,
        }
    }

    /// Division by an invertible element; callers exclude the others.
    pub fn div(self, rhs: Self) -> (r: Self)
        requires
            rhs@ != (0int, 0int),
            f2_norm(rhs@, dmod(D, P), P as int) != 0,
        ensures
            r@ == f2_mul(self@, f2_inverse(rhs@, dmod(D, P), P as int), dmod(D, P), P as int),
            is_prime(P as int) ==> f2_mul(r@, rhs@, dmod(D, P), P as int) == self@,
    {
        match self.checked_div(rhs) {
            Some(q) => q,
            None => {
                proof {
                    assert(false);
                }
                self
            },
        }
    }

    /// Check if the element is a quadratic residue in Fp2: its norm passes
    /// Euler's criterion in Fp.
    pub fn is_square(self) -> (r: bool)
        ensures
            r == is_euler_square(f2_norm(self@, dmod(D, P), P as int), P as int),
    {
        self.norm().is_square()
    }

    /// The least `i < 100` for which `i + x` is not a square in Fp2, returned
    /// as its coordinates `(i, 1)`. The search panics when there is none.
    pub fn find_non_residue() -> (r: (u32, u32))
        requires
            valid_modulus(P as int),
            exists|i: int|
                0 <= i < 100 && !#[trigger] is_euler_square(
                    f2_norm((i % (P as int), 1), dmod(D, P), P as int),
                    P as int,
                ),
        ensures
            r.1 == 1,
            r.0 < 100,
            r.0 < P,
            !is_euler_square(f2_norm((r.0 as int, 1), dmod(D, P), P as int), P as int),
            forall|j: int|
                0 <= j < r.0 ==> #[trigger] is_euler_square(
                    f2_norm((j % (P as int), 1), dmod(D, P), P as int),
                    P as int,
                ),
    {
        let mut i: u32 = 0;
        while i < 100
            invariant
                valid_modulus(P as int),
                i <= 100,
                forall|j: int|
                    0 <= j < i ==> #[trigger] is_euler_square(
                        f2_norm((j % (P as int), 1), dmod(D, P), P as int),
                        P as int,
                    ),
            decreases 100 - i,
        {
            let d = Self { c0: Fp::<P>::new(i), c1: Fp::<P>::one() };
            if !d.is_square() {
                proof {
                    assert(i < P) by {
                        if i >= P {
                            lemma_mod_range(i as int, P as int);
                            let k = i as int % (P as int);
                            assert(0 <= k < i);
                            assert(is_euler_square(
                                f2_norm((k % (P as int), 1), dmod(D, P), P as int),
                                P as int,
                            ));
                        }
                    }
                    lemma_small_mod(i as nat, P as nat);
                }
                return (d.c0.value(), d.c1.value());
            }
            i += 1;
        }
        proof {
            assert(false);
        }
        (0, 0)
    }
}

/// `-1` in `Fp2`.
pub open spec fn f2_minus_one(p: int) -> (int, int) {
    (p - 1, 0int)
}

/// `i` is a square root of `-1`.
pub open spec fn f2_is_imag(i: (int, int), d: int, p: int) -> bool {
    f2_mul(i, i, d, p) == f2_minus_one(p)
}

/// `Fp2` is a field: `P` is an odd prime and `D` a non-residue modulo `P`.
pub open spec fn f2_field(p: u32, d: u32) -> bool {
    &&& is_prime(p as int)
    &&& p % 2 == 1
    &&& valid_modulus(p as int)
    &&& !is_euler_square(dmod(d, p), p as int)
}

/// `x` has a square root in `Fp2`: its norm passes Euler's criterion.
pub open spec fn f2_is_square(x: (int, int), d: int, p: int) -> bool {
    is_euler_square(f2_norm(x, d, p), p)
}

impl<const P: u32, const D: u32> Fp2<P, D> {
    /// A square root of `-1`, found by `sqrt`.
    pub fn imaginary_unit() -> (r: Self)
        requires
            f2_field(P, D),
        ensures
            f2_is_imag(r@, dmod(D, P), P as int),
            r@ == f2_imag_value(dmod(D, P), P as int),
    {
        let ghost p = P as int;
        let ghost d = dmod(D, P);
        let m1 = Self::new(Fp::new(P - 1), Fp::zero());
        proof {
            lemma_small_mod((P - 1) as nat, P as nat);
            lemma_small_mod(0, P as nat);
            lemma_small_mod(1, P as nat);
            let q = p - 2;
            assert((p - 1) * (p - 1) - q * p == 1) by (nonlinear_arith)
                requires
                    q == p - 2,
            ;
            lemma_mod_by_quotient((p - 1) * (p - 1), p, q);
            assert((p - 1) * (p - 1) - d * (0int * 0int) == (p - 1) * (p - 1)) by (nonlinear_arith);
            lemma1_pow(((p - 1) / 2) as nat);
            assert(is_euler_square(f2_norm(m1@, d, p), p));
        }
        match m1.sqrt() {
            Some(x) => x,
            None => {
                proof {
                    assert(false);
                }
                m1
            },
        }
    }
}

impl<const P: u32, const D: u32> Fp2<P, D> {
    /// Square root in Fp2: `x + y X` with `(x + y X)^2 = a + b X`, or `None`
    /// when the norm `a^2 - D b^2` is not a square in `Fp`. The field needs
    /// `P` an odd prime and `D` a non-residue modulo `P`.
    pub fn sqrt(self) -> (r: Option<Self>)
        requires
            is_prime(P as int),
            P % 2 == 1,
            valid_modulus(P as int),
            !is_euler_square(dmod(D, P), P as int),
        ensures
            r is None <==> !is_euler_square(f2_norm(self@, dmod(D, P), P as int), P as int),
            r matches Some(x) ==> f2_mul(x@, x@, dmod(D, P), P as int) == self@,
            r matches Some(x) ==> x@ == fp2_sqrt_value(self@, dmod(D, P), P as int),
    {
        proof {
            reveal(fp2_sqrt_value);
        }
        let ghost p = P as int;
        let ghost d = dmod(D, P);
        proof {
            use_type_invariant(&self.c0);
            use_type_invariant(&self.c1);
            lemma_mod_range(D as int, p);
            assert(p > 2) by {
                if p == 2 {
                    assert(false);
                }
            }
            lemma_small_mod(0, P as nat);
            lemma_small_mod(1, P as nat);
            vstd::arithmetic::power::lemma1_pow(((p - 1) / 2) as nat);
            assert(d != 0 && d != 1);
            assert(has_non_residue(p)) by {
                assert(2 <= d < p && !is_euler_square(d, p));
            }
        }
        if self.is_zero() {
            proof {
                assert(self@.0 == 0 && self@.1 == 0);
                assert(d * (0int * 0int) == 0) by (nonlinear_arith);
                assert(f2_norm(self@, d, p) == 0);
                assert(f2_mul((0int, 0int), (0int, 0int), d, p) == (0int, 0int));
            }
            return Some(Self::zero());
        }
        let norm_sqrt = match self.norm().sqrt() {
            Some(v) => v,
            None => return None,
        };
        let a = self.c0;
        let b = self.c1;
        let two_inv = Fp::<P>::two_inv();
        let h1 = a.add(norm_sqrt).mul(two_inv);
        let ghost fail1: bool;
        match h1.sqrt() {
            Some(x) => {
                if !x.is_zero() {
                    proof {
                        use_type_invariant(&x);
                        lemma_small_mod(x@ as nat, P as nat);
                        lemma_small_mod(2, P as nat);
                        crate::modular::lemma_unit_product(2, x@, p);
                        assert(2 * x@ == x@ + x@);
                        lemma_mod_range(x@ + x@, p);
                    }
                    let y = b.div(x.add(x));
                    proof {
                        assert(self@ != (0int, 0int));
                        assert(norm_sqrt@ == fp_sqrt_value(f2_norm(self@, d, p), p));
                        assert(x@ == fp_sqrt_value(h1@, p));
                        assert(Self { c0: x, c1: y }@ == fp2_sqrt_value(self@, d, p));
                        assert(a@ + 1 * norm_sqrt@ == a@ + norm_sqrt@);
                        lemma_attempt_root(a@, b@, norm_sqrt@, d, x@, y@, h1@, two_inv@, 1, p);
                    }
                    return Some(Self { c0: x, c1: y });
                }
                proof {
                    fail1 = true;
                    assert(h1@ == 0);
                }
            },
            None => {
                proof {
                    fail1 = true;
                }
            },
        }
        let h2 = a.sub(norm_sqrt).mul(two_inv);
        match h2.sqrt() {
            Some(x) => {
                if !x.is_zero() {
                    proof {
                        use_type_invariant(&x);
                        lemma_small_mod(x@ as nat, P as nat);
                        lemma_small_mod(2, P as nat);
                        crate::modular::lemma_unit_product(2, x@, p);
                        assert(2 * x@ == x@ + x@);
                        lemma_mod_range(x@ + x@, p);
                    }
                    let y = b.div(x.add(x));
                    proof {
                        assert(self@ != (0int, 0int));
                        assert(norm_sqrt@ == fp_sqrt_value(f2_norm(self@, d, p), p));
                        assert(x@ == fp_sqrt_value(h2@, p));
                        assert(!(is_euler_square(h1@, p) && fp_sqrt_value(h1@, p) != 0));
                        assert(Self { c0: x, c1: y }@ == fp2_sqrt_value(self@, d, p));
                        assert(a@ + (-1) * norm_sqrt@ == a@ - norm_sqrt@);
                        lemma_attempt_root(a@, b@, norm_sqrt@, d, x@, y@, h2@, two_inv@, -1, p);
                    }
                    return Some(Self { c0: x, c1: y });
                }
                proof {
                    assert(h2@ == 0);
                }
            },
            None => {},
        }
        proof {
            use_type_invariant(&norm_sqrt);
            lemma_fallback(a@, b@, norm_sqrt@, d, two_inv@, h1@, h2@, p);
            lemma_inverse_by_fermat(d, p);
            lemma_small_mod(a@ as nat, P as nat);
            lemma_small_mod(d as nat, P as nat);
            lemma_quotient_square(a@, d, pow(d, (p - 2) as nat) % p, p);
        }
        let q = a.div(Self::d_fp());
        match q.sqrt() {
            Some(y) => {
                proof {
                    lemma_mod_range(y@ * y@, p);
                    lemma_mul_cong(d, y@ * y@, d, q@, p);
                    assert(d * q@ == q@ * d) by (nonlinear_arith);
                    assert(0 * 0 + d * (y@ * y@) == d * (y@ * y@));
                    assert(0 * y@ + y@ * 0 == 0);
                    assert(self@ != (0int, 0int));
                    assert(norm_sqrt@ == fp_sqrt_value(f2_norm(self@, d, p), p));
                    assert(!(is_euler_square(h1@, p) && fp_sqrt_value(h1@, p) != 0));
                    assert(!(is_euler_square(h2@, p) && fp_sqrt_value(h2@, p) != 0));
                }
                let res = Self { c0: Fp::zero(), c1: y };
                proof {
                    assert(res@ == fp2_sqrt_value(self@, d, p));
                }
                Some(res)
            },
            None => {
                proof {
                    assert(false);
                }
                None
            },
        }
    }
}

} // verus!
