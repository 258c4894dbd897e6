//! The roots in `Fp` of a polynomial over `Fp`.
use crate::fq::{valid_modulus, Fp};
use crate::poly::Polynomial;
use vstd::prelude::*;

verus! {

/// The value at `x` of the polynomial with the coefficients `cs` from the
/// `k`-th on, modulo `p`, by Horner's rule.
pub open spec fn fp_horner(cs: Seq<int>, x: int, k: int, p: int) -> int
    decreases cs.len() - k,
{
    if k < 0 || k >= cs.len() {
        0
    } else {
        ((fp_horner(cs, x, k + 1, p) * x) % p + cs[k]) % p
    }
}

impl<const P: u32> Polynomial<Fp<P>> {
    /// The value of the polynomial at `x`.
    pub fn eval(&self, x: Fp<P>) -> (r: Fp<P>)
        requires
            valid_modulus(P as int),
        ensures
            r@ == fp_horner(self.values(), x@, 0, P as int),
    {
        let mut acc = Fp::<P>::zero();
        let mut i: usize = self.coeffs.len();
        while i > 0
            invariant
                i <= self.coeffs.len(),
                valid_modulus(P as int),
                acc@ == fp_horner(self.values(), x@, i as int, P as int),
            decreases i,
        {
            i = i - 1;
            acc = acc.mul(x).add(self.coeffs[i]);
        }
        acc
    }

    /// The distinct roots of the polynomial in `Fp`, in increasing order: the
    /// residues `x` at which it vanishes.
    pub fn roots(&self) -> (r: Vec<Fp<P>>)
        requires
            valid_modulus(P as int),
        ensures
            forall|i: int, j: int| 0 <= i < j < r.len() ==> #[trigger] r@[i]@ < #[trigger] r@[j]@,
            forall|i: int| 0 <= i < r.len() ==> fp_horner(self.values(), #[trigger] r@[i]@, 0, P as int) == 0,
            forall|x: int| 0 <= x < P && #[trigger] fp_horner(self.values(), x, 0, P as int) == 0 ==> exists|i: int|
                0 <= i < r.len() && #[trigger] r@[i]@ == x,
    {
        let mut r: Vec<Fp<P>> = Vec::new();
        let mut x: u32 = 0;
        while x < P
            invariant
                valid_modulus(P as int),
                x <= P,
                forall|i: int, j: int| 0 <= i < j < r.len() ==> #[trigger] r@[i]@ < #[trigger] r@[j]@,
                forall|i: int| 0 <= i < r.len() ==> #[trigger] r@[i]@ < x,
                forall|i: int| 0 <= i < r.len() ==> fp_horner(self.values(), #[trigger] r@[i]@, 0, P as int) == 0,
                forall|y: int| 0 <= y < x && #[trigger] fp_horner(self.values(), y, 0, P as int) == 0 ==> exists|i: int|
                    0 <= i < r.len() && #[trigger] r@[i]@ == y,
            decreases P - x,
        {
            let v = Fp::<P>::new(x);
            assert(v@ == x) by {
                vstd::arithmetic::div_mod::lemma_small_mod(x as nat, P as nat);
            }
            if self.eval(v).is_zero() {
                let ghost old_r = r@;
                r.push(v);
                proof {
                    assert forall|y: int| 0 <= y < x + 1 && #[trigger] fp_horner(self.values(), y, 0, P as int) == 0 implies exists|i: int|
                        0 <= i < r.len() && #[trigger] r@[i]@ == y by {
                        if y < x {
                            let i = choose|i: int| 0 <= i < old_r.len() && #[trigger] old_r[i]@ == y;
                            assert(r@[i] == old_r[i]);
                        } else {
                            assert(r@[old_r.len() as int]@ == y);
                        }
                    }
                    assert forall|i: int, j: int| 0 <= i < j < r.len() implies #[trigger] r@[i]@ < #[trigger] r@[j]@ by {
                        if j < old_r.len() {
                            assert(r@[i] == old_r[i] && r@[j] == old_r[j]);
                        } else {
                            assert(r@[i] == old_r[i]);
                        }
                    }
                }
            } else {
                proof {
                    assert forall|y: int| 0 <= y < x + 1 && #[trigger] fp_horner(self.values(), y, 0, P as int) == 0 implies exists|i: int|
                        0 <= i < r.len() && #[trigger] r@[i]@ == y by {
                        if y == x {
                            assert(false);
                        }
                    }
                }
            }
            x = x + 1;
        }
        r
    }
}

} // verus!
