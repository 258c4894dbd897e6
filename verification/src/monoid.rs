//! Powers in a commutative monoid given by a multiplication and its unit, and the
//! step that justifies square-and-multiply exponentiation.
use vstd::prelude::*;

verus! {

/// `a^n` for the multiplication `mul` with unit `one`.
pub open spec fn mpow<T>(op: spec_fn(T, T) -> T, one: T, a: T, n: nat) -> T
    decreases n,
{
    if n == 0 {
        one
    } else {
        op(a, mpow(op, one, a, (n - 1) as nat))
    }
}

/// `mul` is associative and commutative, and `one` is a unit for its products.
pub open spec fn monoid_laws<T>(op: spec_fn(T, T) -> T, one: T) -> bool {
    &&& forall|x: T, y: T, z: T| #[trigger] op(op(x, y), z) == op(x, op(y, z))
    &&& forall|x: T, y: T| #[trigger] op(x, y) == op(y, x)
    &&& forall|x: T, y: T| #[trigger] op(op(x, y), one) == op(x, y)
    &&& op(one, one) == one
}

/// Every power is fixed by multiplication with the unit.
pub proof fn lemma_mpow_unit<T>(op: spec_fn(T, T) -> T, one: T, a: T, n: nat)
    requires
        monoid_laws(op, one),
    ensures
        op(mpow(op, one, a, n), one) == mpow(op, one, a, n),
{
    if n > 0 {
        assert(op(op(a, mpow(op, one, a, (n - 1) as nat)), one) == op(
            a,
            mpow(op, one, a, (n - 1) as nat),
        ));
    }
}

/// `(a * a)^k == a^(2k)`.
pub proof fn lemma_mpow_square<T>(op: spec_fn(T, T) -> T, one: T, a: T, k: nat)
    requires
        monoid_laws(op, one),
    ensures
        mpow(op, one, op(a, a), k) == mpow(op, one, a, 2 * k),
    decreases k,
{
    if k > 0 {
        lemma_mpow_square(op, one, a, (k - 1) as nat);
        let rest = mpow(op, one, a, (2 * (k - 1)) as nat);
        assert(op(op(a, a), rest) == op(a, op(a, rest)));
        assert((2 * k - 1) as nat == (2 * (k - 1)) as nat + 1);
        assert(mpow(op, one, a, (2 * k - 1) as nat) == op(a, rest));
    }
}

/// One step of square-and-multiply keeps `result * base^exp` unchanged.
pub proof fn lemma_mpow_square_multiply_step<T>(
    op: spec_fn(T, T) -> T,
    one: T,
    r: T,
    b: T,
    e: nat,
)
    requires
        monoid_laws(op, one),
    ensures
        e % 2 == 1 ==> op(op(r, b), mpow(op, one, op(b, b), e / 2)) == op(
            r,
            mpow(op, one, b, e),
        ),
        e % 2 == 0 ==> op(r, mpow(op, one, op(b, b), e / 2)) == op(r, mpow(op, one, b, e)),
{
    let k = e / 2;
    lemma_mpow_square(op, one, b, k);
    if e % 2 == 1 {
        assert(e == 2 * k + 1);
        assert((e - 1) as nat == 2 * k);
        assert(op(op(r, b), mpow(op, one, b, 2 * k)) == op(r, op(b, mpow(op, one, b, 2 * k))));
    } else {
        assert(e == 2 * k);
    }
}

} // verus!
