//! Surfaces of the (2,2)-isogeny graph over `Fp4` told apart by their Igusa
//! invariants: the invariants of the surface of a theta null-point, and their
//! lookup among the surfaces already found.
use crate::fp4::{d2_of, f4_field, f4_invertible, f4_views, lemma_f4_field_params, F4, Fp4};
use crate::fq::dmod;
use crate::rosenhain::{igusa_of, lemma_igusa_defined, rosenhain_valid, IgusaInvariants, Rosenhain};
use crate::theta::{th_rosenhain4, th_rosenhain_den4, Theta};
use vstd::prelude::*;

verus! {

/// The values of the Igusa invariants `x`.
pub open spec fn igv<const P: u32, const D1: u32, const D2C0: u32, const D2C1: u32>(
    x: IgusaInvariants<Fp4<P, D1, D2C0, D2C1>>,
) -> (F4, F4, F4) {
    (x.i1@, x.i2@, x.i3@)
}

/// The values of the Rosenhain form `x`.
pub open spec fn ramv<const P: u32, const D1: u32, const D2C0: u32, const D2C1: u32>(
    x: Rosenhain<Fp4<P, D1, D2C0, D2C1>>,
) -> (F4, F4, F4) {
    (x.la@, x.mu@, x.nu@)
}

/// The Rosenhain invariants of the squared theta null-point `t` can be
/// computed and form a Rosenhain form, so that its Igusa invariants can be
/// computed too.
#[verifier::opaque]
pub open spec fn th_igusa_ok4(t: Seq<F4>, d: int, e: (int, int), p: int) -> bool {
    let (la, mu, nu) = th_rosenhain4(t, d, e, p);
    &&& f4_invertible(th_rosenhain_den4(t, d, e, p), d, e, p)
    &&& rosenhain_valid(la, mu, nu)
}

/// The Igusa invariants of the surface of the squared theta null-point `t`.
#[verifier::opaque]
pub open spec fn th_igusa4(t: Seq<F4>, d: int, e: (int, int), p: int) -> (F4, F4, F4) {
    let (la, mu, nu) = th_rosenhain4(t, d, e, p);
    igusa_of(la, mu, nu, d, e, p)
}

/// The Rosenhain form and the Igusa invariants of the surface of the squared
/// theta null-point `t`, or `None` where its Rosenhain invariants cannot be
/// computed or do not form a Rosenhain form.
pub fn surface_invariants<const P: u32, const D1: u32, const D2C0: u32, const D2C1: u32>(
    t: &Theta<Fp4<P, D1, D2C0, D2C1>>,
) -> (r: Option<(Rosenhain<Fp4<P, D1, D2C0, D2C1>>, IgusaInvariants<Fp4<P, D1, D2C0, D2C1>>)>)
    requires
        f4_field(P, D1, D2C0, D2C1),
        P > 5,
    ensures
        r is Some <==> th_igusa_ok4(f4_views(t.null), dmod(D1, P), d2_of(D2C0, D2C1, P), P as int),
        r matches Some((ram, inv)) ==> ramv(ram) == th_rosenhain4(f4_views(t.null), dmod(D1, P), d2_of(D2C0, D2C1, P), P as int)
            && igv(inv) == th_igusa4(f4_views(t.null), dmod(D1, P), d2_of(D2C0, D2C1, P), P as int)
            && igv(inv) == igusa_of(ram.la@, ram.mu@, ram.nu@, dmod(D1, P), d2_of(D2C0, D2C1, P), P as int),
{
    let ghost d = dmod(D1, P);
    let ghost e = d2_of(D2C0, D2C1, P);
    let ghost p = P as int;
    let ghost tv = f4_views(t.null);
    proof {
        reveal(th_igusa_ok4);
        reveal(th_igusa4);
        assert(tv[4] == t.null[4]@ && tv[5] == t.null[5]@ && tv[8] == t.null[8]@);
    }
    let den = t.null[4].mul(t.null[5]).mul(t.null[8]);
    if den.inverse().is_none() {
        return None;
    }
    let ram = t.to_rosenhain();
    match rosenhain_invariants(&ram) {
        Some(inv) => Some((ram, inv)),
        None => None,
    }
}

/// Whether two sets of Igusa invariants are equal.
pub(crate) fn same_invariants<const P: u32, const D1: u32, const D2C0: u32, const D2C1: u32>(
    x: &IgusaInvariants<Fp4<P, D1, D2C0, D2C1>>,
    y: &IgusaInvariants<Fp4<P, D1, D2C0, D2C1>>,
) -> (r: bool)
    ensures
        r == (igv(*x) == igv(*y)),
{
    x.i1.same_as(&y.i1) && x.i2.same_as(&y.i2) && x.i3.same_as(&y.i3)
}

/// The position of the Igusa invariants `x` in `invs`, if they occur.
pub fn find_invariants<const P: u32, const D1: u32, const D2C0: u32, const D2C1: u32>(
    invs: &Vec<IgusaInvariants<Fp4<P, D1, D2C0, D2C1>>>,
    x: &IgusaInvariants<Fp4<P, D1, D2C0, D2C1>>,
) -> (r: Option<usize>)
    ensures
        r matches Some(i) ==> i < invs.len() && igv(invs@[i as int]) == igv(*x),
        r is None ==> forall|i: int| 0 <= i < invs.len() ==> igv(#[trigger] invs@[i]) != igv(*x),
{
    let mut i: usize = 0;
    while i < invs.len()
        invariant
            i <= invs.len(),
            forall|k: int| 0 <= k < i ==> igv(#[trigger] invs@[k]) != igv(*x),
        decreases invs.len() - i,
    {
        if same_invariants(&invs[i], x) {
            return Some(i);
        }
        i = i + 1;
    }
    None
}

/// The Igusa invariants of the Rosenhain form `ram`, or `None` where it is no
/// Rosenhain form of a genus-2 curve.
pub fn rosenhain_invariants<const P: u32, const D1: u32, const D2C0: u32, const D2C1: u32>(
    ram: &Rosenhain<Fp4<P, D1, D2C0, D2C1>>,
) -> (r: Option<IgusaInvariants<Fp4<P, D1, D2C0, D2C1>>>)
    requires
        f4_field(P, D1, D2C0, D2C1),
        P > 5,
    ensures
        r is Some <==> rosenhain_valid(ram.la@, ram.mu@, ram.nu@),
        r matches Some(inv) ==> igv(inv) == igusa_of(ram.la@, ram.mu@, ram.nu@, dmod(D1, P), d2_of(D2C0, D2C1, P), P as int),
{
    ram.la.reduced();
    ram.mu.reduced();
    ram.nu.reduced();
    let zero = Fp4::<P, D1, D2C0, D2C1>::zero();
    let one = Fp4::<P, D1, D2C0, D2C1>::one();
    if ram.la.same_as(&zero) || ram.mu.same_as(&zero) || ram.nu.same_as(&zero) || ram.la.same_as(&one)
        || ram.mu.same_as(&one) || ram.nu.same_as(&one) || ram.la.same_as(&ram.mu) || ram.la.same_as(&ram.nu)
        || ram.mu.same_as(&ram.nu) {
        return None;
    }
    proof {
        lemma_f4_field_params(P, D1, D2C0, D2C1);
        lemma_igusa_defined(ram.la@, ram.mu@, ram.nu@, dmod(D1, P), d2_of(D2C0, D2C1, P), P as int);
    }
    Some(ram.igusa_invariants())
}

} // verus!
