//! A Rosenhain form to start the exploration of the supersingular,
//! non-superspecial graph from: the curve `y^2 = x^5 - 1`, supersingular and
//! not superspecial when `p = 2, 3 (mod 5)`, brought into Rosenhain form by
//! sending three of its roots to `0, 1, infinity`.
use crate::fp4::{d2_of, f4_field, f4_inverse, f4_invertible, f4_mul, f4_one, f4_pow, f4_reduced, f4_sub, F4, Fp4};
use crate::fq::{dmod, Fp, Fp2};
use crate::rosenhain::Rosenhain;
use vstd::prelude::*;

verus! {

/// The Rosenhain form `((r2 - r0) / (r1 - r0), (r3 - r0) / (r1 - r0),
/// (r4 - r0) / (r1 - r0))` of the curve with the branch points `r`.
pub open spec fn rosenhain_of_roots(r: Seq<F4>, d: int, e: (int, int), p: int) -> (F4, F4, F4) {
    let inv = f4_inverse(f4_sub(r[1], r[0], p), d, e, p);
    (
        f4_mul(f4_sub(r[2], r[0], p), inv, d, e, p),
        f4_mul(f4_sub(r[3], r[0], p), inv, d, e, p),
        f4_mul(f4_sub(r[4], r[0], p), inv, d, e, p),
    )
}

/// The Rosenhain form of the curve `y^2 = (x - r0)(x - r1)(x - r2)(x - r3)(x - r4)`
/// that sends `r0, r1` to `0, 1` and keeps infinity; `None` where `r1 - r0`
/// cannot be inverted.
pub fn rosenhain_from_roots<const P: u32, const D1: u32, const D2C0: u32, const D2C1: u32>(
    roots: &[Fp4<P, D1, D2C0, D2C1>; 5],
) -> (r: Option<Rosenhain<Fp4<P, D1, D2C0, D2C1>>>)
    ensures
        r is Some <==> f4_invertible(f4_sub(roots[1]@, roots[0]@, P as int), dmod(D1, P), d2_of(D2C0, D2C1, P), P as int),
        r matches Some(ram) ==> (ram.la@, ram.mu@, ram.nu@) == rosenhain_of_roots(
            seq![roots[0]@, roots[1]@, roots[2]@, roots[3]@, roots[4]@],
            dmod(D1, P),
            d2_of(D2C0, D2C1, P),
            P as int,
        ),
{
    let inv = match roots[1].sub(roots[0]).inverse() {
        Some(x) => x,
        None => return None,
    };
    let la = roots[2].sub(roots[0]).mul(inv);
    let mu = roots[3].sub(roots[0]).mul(inv);
    let nu = roots[4].sub(roots[0]).mul(inv);
    Some(Rosenhain::new(la, mu, nu))
}

/// `x` is a fifth root of unity other than one: a primitive one, as `5` is
/// prime.
pub open spec fn primitive_fifth(x: F4, d: int, e: (int, int), p: int) -> bool {
    f4_pow(x, 5, d, e, p) == f4_one() && x != f4_one()
}

/// `Fp4` has no fifth root of unity but one.
pub open spec fn no_primitive_fifth(d: int, e: (int, int), p: int) -> bool {
    forall|x: F4| f4_reduced(x, p) ==> !#[trigger] primitive_fifth(x, d, e, p)
}

/// A primitive fifth root of unity of `Fp4`, found by trying every element
/// in turn; `None` where there is none.
fn fifth_root_by_search<const P: u32, const D1: u32, const D2C0: u32, const D2C1: u32>() -> (r: Option<
    Fp4<P, D1, D2C0, D2C1>,
>)
    requires
        f4_field(P, D1, D2C0, D2C1),
    ensures
        r matches Some(z) ==> primitive_fifth(z@, dmod(D1, P), d2_of(D2C0, D2C1, P), P as int),
        r is None ==> no_primitive_fifth(dmod(D1, P), d2_of(D2C0, D2C1, P), P as int),
{
    let ghost (d, e, p) = (dmod(D1, P), d2_of(D2C0, D2C1, P), P as int);
    let one = Fp4::<P, D1, D2C0, D2C1>::one();
    let mut a: u32 = 0;
    while a < P
        invariant
            f4_field(P, D1, D2C0, D2C1),
            d == dmod(D1, P),
            e == d2_of(D2C0, D2C1, P),
            p == P as int,
            one@ == f4_one(),
            a <= P,
            forall|x: F4| f4_reduced(x, p) && x.0.0 < a ==> !#[trigger] primitive_fifth(x, d, e, p),
        decreases P - a,
    {
        let mut b: u32 = 0;
        while b < P
            invariant
                f4_field(P, D1, D2C0, D2C1),
                d == dmod(D1, P),
                e == d2_of(D2C0, D2C1, P),
                p == P as int,
                one@ == f4_one(),
                a < P,
                b <= P,
                forall|x: F4|
                    f4_reduced(x, p) && (x.0.0 < a || (x.0.0 == a && x.0.1 < b)) ==> !#[trigger] primitive_fifth(x, d, e, p),
            decreases P - b,
        {
            let mut c: u32 = 0;
            while c < P
                invariant
                    f4_field(P, D1, D2C0, D2C1),
                    d == dmod(D1, P),
                    e == d2_of(D2C0, D2C1, P),
                    p == P as int,
                    one@ == f4_one(),
                    a < P,
                    b < P,
                    c <= P,
                    forall|x: F4|
                        f4_reduced(x, p) && (x.0.0 < a || (x.0.0 == a && x.0.1 < b) || (x.0.0 == a && x.0.1 == b && x.1.0
                            < c)) ==> !#[trigger] primitive_fifth(x, d, e, p),
                decreases P - c,
            {
                let mut w: u32 = 0;
                while w < P
                    invariant
                        f4_field(P, D1, D2C0, D2C1),
                        d == dmod(D1, P),
                        e == d2_of(D2C0, D2C1, P),
                        p == P as int,
                        one@ == f4_one(),
                        a < P,
                        b < P,
                        c < P,
                        w <= P,
                        forall|x: F4|
                            f4_reduced(x, p) && (x.0.0 < a || (x.0.0 == a && x.0.1 < b) || (x.0.0 == a && x.0.1 == b
                                && x.1.0 < c) || (x.0.0 == a && x.0.1 == b && x.1.0 == c && x.1.1 < w))
                                ==> !#[trigger] primitive_fifth(x, d, e, p),
                    decreases P - w,
                {
                    let x = Fp4::<P, D1, D2C0, D2C1>::new(Fp2::new(Fp::new(a), Fp::new(b)), Fp2::new(Fp::new(c), Fp::new(w)));
                    proof {
                        vstd::arithmetic::div_mod::lemma_small_mod(a as nat, P as nat);
                        vstd::arithmetic::div_mod::lemma_small_mod(b as nat, P as nat);
                        vstd::arithmetic::div_mod::lemma_small_mod(c as nat, P as nat);
                        vstd::arithmetic::div_mod::lemma_small_mod(w as nat, P as nat);
                        assert(x@ == ((a as int, b as int), (c as int, w as int)));
                    }
                    if x.pow(5).same_as(&one) && !x.same_as(&one) {
                        return Some(x);
                    }
                    w = w + 1;
                }
                c = c + 1;
            }
            b = b + 1;
        }
        a = a + 1;
    }
    None
}

/// A primitive fifth root of unity of `Fp4`: the first of the powers
/// `x^((p^4 - 1) / 5)`, `x = a + y` for `a = 0, 1, ...`, that is not one and
/// is checked to be a fifth root of unity, or else one found by trying every
/// element. `None` only where `Fp4` has no fifth root of unity but one.
pub fn primitive_fifth_root<const P: u32, const D1: u32, const D2C0: u32, const D2C1: u32>() -> (r: Option<
    Fp4<P, D1, D2C0, D2C1>,
>)
    requires
        f4_field(P, D1, D2C0, D2C1),
    ensures
        r matches Some(z) ==> f4_pow(z@, 5, dmod(D1, P), d2_of(D2C0, D2C1, P), P as int) == f4_one() && z@ != f4_one(),
        r is None ==> no_primitive_fifth(dmod(D1, P), d2_of(D2C0, D2C1, P), P as int),
{
    let p = P as u64;
    assert(1 <= p * p <= 0x4000_0000_0000_0000) by (nonlinear_arith)
        requires
            2 <= p <= 0x8000_0000,
    ;
    let p2 = p * p;
    if (p2 + 1) % 5 == 0 || (p2 - 1) % 5 == 0 {
        let one = Fp4::<P, D1, D2C0, D2C1>::one();
        let mut a: u32 = 0;
        while a < P
            invariant
                f4_field(P, D1, D2C0, D2C1),
                p == P as u64,
                p2 == p * p,
                1 <= p2 <= 0x4000_0000_0000_0000,
                one@ == f4_one(),
            decreases P - a,
        {
            let x = Fp4::<P, D1, D2C0, D2C1>::new(Fp2::new(Fp::new(a), Fp::zero()), Fp2::one());
            let z = if (p2 + 1) % 5 == 0 {
                x.pow(p2 - 1).pow((p2 + 1) / 5)
            } else {
                x.pow((p2 - 1) / 5).pow(p2 + 1)
            };
            if !z.same_as(&one) && z.pow(5).same_as(&one) {
                return Some(z);
            }
            a = a + 1;
        }
    }
    match fifth_root_by_search::<P, D1, D2C0, D2C1>() {
        Some(z) => Some(z),
        None => None,
    }
}

/// The roots `1, z, z^2, z^3, z^4` of `x^5 - 1`, `z` a primitive fifth root of
/// unity.
pub open spec fn quintic_roots(z: F4, d: int, e: (int, int), p: int) -> Seq<F4> {
    seq![f4_one(), z, f4_pow(z, 2, d, e, p), f4_pow(z, 3, d, e, p), f4_pow(z, 4, d, e, p)]
}

/// The Rosenhain form of `y^2 = x^5 - 1` from its roots `1, z, z^2, z^3, z^4`,
/// `z` the primitive fifth root of unity that `primitive_fifth_root` finds;
/// `None` where it finds none.
pub fn quintic_rosenhain<const P: u32, const D1: u32, const D2C0: u32, const D2C1: u32>() -> (r: Option<
    Rosenhain<Fp4<P, D1, D2C0, D2C1>>,
>)
    requires
        f4_field(P, D1, D2C0, D2C1),
    ensures
        r matches Some(ram) ==> exists|z: F4|
            f4_pow(z, 5, dmod(D1, P), d2_of(D2C0, D2C1, P), P as int) == f4_one() && z != f4_one() && (ram.la@, ram.mu@, ram.nu@)
                == #[trigger] rosenhain_of_roots(quintic_roots(z, dmod(D1, P), d2_of(D2C0, D2C1, P), P as int), dmod(D1, P), d2_of(D2C0, D2C1, P), P as int),
        r is None ==> no_primitive_fifth(dmod(D1, P), d2_of(D2C0, D2C1, P), P as int),
{
    let z = match primitive_fifth_root::<P, D1, D2C0, D2C1>() {
        Some(z) => z,
        None => return None,
    };
    let one = Fp4::<P, D1, D2C0, D2C1>::one();
    z.reduced();
    let roots = [one, z, z.pow(2), z.pow(3), z.pow(4)];
    proof {
        let (d, e, p) = (dmod(D1, P), d2_of(D2C0, D2C1, P), P as int);
        crate::fp4::lemma_f4_field_params(P, D1, D2C0, D2C1);
        crate::fp4::lemma_f4_sub_nonzero(z@, f4_one(), p);
        crate::fp4::lemma_f4_sub_reduced(z@, f4_one(), p);
        crate::fp4::lemma_f4_nonzero_invertible(f4_sub(z@, f4_one(), p), d, e, p);
    }
    let r = rosenhain_from_roots(&roots);
    proof {
        let (d, e, p) = (dmod(D1, P), d2_of(D2C0, D2C1, P), P as int);
        if let Some(ram) = r {
            assert(seq![roots[0]@, roots[1]@, roots[2]@, roots[3]@, roots[4]@] =~= quintic_roots(z@, d, e, p));
        }
    }
    r
}

} // verus!
