//! One step of the breadth-first walk over the supersingular,
//! non-superspecial (2,2)-isogeny graph over `Fp4`: the fifteen isogenies out
//! of a surface, the surface of each image, and the surfaces of the images of
//! its eight good extensions. Surfaces are numbered in the order they are
//! found and told apart by their Igusa invariants.
use crate::fp4::{d2_of, f4_field, f4_views, F4, Fp4};
use crate::fq::dmod;
use crate::good_extension::sorted_distinct;
use crate::graph::{seqs_of, strictly_increasing};
use crate::rosenhain::{igusa_of, IgusaInvariants, Rosenhain};
use crate::ssg::{find_invariants, igv, ramv, surface_invariants, th_igusa4, th_igusa_ok4};
use crate::theta::{th_built4, th_library_defined4, th_rosenhain4, th_twoisogeny4, Theta};
use vstd::prelude::*;

verus! {

/// The `m`-th (2,2)-isogeny of the null-point `t` can be computed as the
/// library computes it, and so can the Igusa invariants of its image.
#[verifier::opaque]
pub open spec fn ssg_step_ok(t: Seq<F4>, m: int, d: int, e: (int, int), p: int) -> bool {
    th_library_defined4(t, m, d, e, p) && th_igusa_ok4(th_twoisogeny4(t, m, d, e, p), d, e, p)
}

/// The image of the `m`-th (2,2)-isogeny of the null-point `t`.
#[verifier::opaque]
pub open spec fn ssg_step(t: Seq<F4>, m: int, d: int, e: (int, int), p: int) -> Seq<F4> {
    th_twoisogeny4(t, m, d, e, p)
}

/// The Rosenhain form `(la, mu, nu)` of the null-point `t`.
#[verifier::opaque]
pub open spec fn ssg_ram(t: Seq<F4>, d: int, e: (int, int), p: int) -> (F4, F4, F4) {
    th_rosenhain4(t, d, e, p)
}

/// The Igusa invariants of the Rosenhain form `r`.
#[verifier::opaque]
pub open spec fn ssg_igusa(r: (F4, F4, F4), d: int, e: (int, int), p: int) -> (F4, F4, F4) {
    igusa_of(r.0, r.1, r.2, d, e, p)
}

/// The null-point of a theta structure over `Fp4`.
pub open spec fn tview<const P: u32, const D1: u32, const D2C0: u32, const D2C1: u32>(
    t: Theta<Fp4<P, D1, D2C0, D2C1>>,
) -> Seq<F4> {
    f4_views(t.null)
}

/// The surfaces found so far: `rams[0]` is `initial` and `thetas[0]` the
/// null-point `from_rosenhain` builds for it; every later surface has the
/// Rosenhain form of its null-point; `invs[i]` are the Igusa invariants of
/// `rams[i]`, and no two surfaces share them.
#[verifier::opaque]
pub open spec fn ssg_surfaces<const P: u32, const D1: u32, const D2C0: u32, const D2C1: u32>(
    initial: Rosenhain<Fp4<P, D1, D2C0, D2C1>>,
    thetas: Seq<Theta<Fp4<P, D1, D2C0, D2C1>>>,
    rams: Seq<Rosenhain<Fp4<P, D1, D2C0, D2C1>>>,
    invs: Seq<IgusaInvariants<Fp4<P, D1, D2C0, D2C1>>>,
) -> bool {
    let (d, e, p) = (dmod(D1, P), d2_of(D2C0, D2C1, P), P as int);
    &&& 1 <= invs.len()
    &&& rams.len() == invs.len()
    &&& thetas.len() == invs.len()
    &&& ramv(rams[0]) == ramv(initial)
    &&& tview(thetas[0]) == th_built4(initial.la@, initial.mu@, initial.nu@, d, e, p)
    &&& forall|i: int|
        1 <= i < invs.len() ==> th_igusa_ok4(#[trigger] tview(thetas[i]), d, e, p) && ramv(rams[i]) == ssg_ram(
            tview(thetas[i]),
            d,
            e,
            p,
        )
    &&& forall|i: int| 0 <= i < invs.len() ==> igv(#[trigger] invs[i]) == ssg_igusa(ramv(rams[i]), d, e, p)
    &&& forall|i: int, j: int| 0 <= i < j < invs.len() ==> igv(#[trigger] invs[i]) != igv(#[trigger] invs[j])
}

/// The `k`-th good extension of the image null-point `c` can be computed, and
/// `raw[k]` is the surface whose Igusa invariants the image of the extension
/// has.
#[verifier::opaque]
pub open spec fn ssg_next_ok<const P: u32, const D1: u32, const D2C0: u32, const D2C1: u32>(
    invs: Seq<IgusaInvariants<Fp4<P, D1, D2C0, D2C1>>>,
    c: Seq<F4>,
    raw: Seq<usize>,
    k: int,
) -> bool {
    let (d, e, p) = (dmod(D1, P), d2_of(D2C0, D2C1, P), P as int);
    &&& ssg_step_ok(c, k, d, e, p)
    &&& raw[k] < invs.len()
    &&& igv(invs[raw[k] as int]) == ssg_igusa(ssg_ram(ssg_step(c, k, d, e, p), d, e, p), d, e, p)
}

/// The observation `(key, next)` of the `m`-th isogeny out of the `a`-th
/// surface: the isogeny and the invariants of its image can be computed from
/// `thetas[a]`, `key` is `a` and the surface of the image, and `next` lists
/// in increasing order the surfaces of the images of the eight good
/// extensions of the image.
#[verifier::opaque]
pub open spec fn ssg_observed<const P: u32, const D1: u32, const D2C0: u32, const D2C1: u32>(
    thetas: Seq<Theta<Fp4<P, D1, D2C0, D2C1>>>,
    invs: Seq<IgusaInvariants<Fp4<P, D1, D2C0, D2C1>>>,
    key: (usize, usize),
    next: Seq<usize>,
    a: int,
    m: int,
) -> bool {
    let (d, e, p) = (dmod(D1, P), d2_of(D2C0, D2C1, P), P as int);
    let t = tview(thetas[a]);
    let c = ssg_step(t, m, d, e, p);
    &&& ssg_step_ok(t, m, d, e, p)
    &&& key.0 == a
    &&& key.1 < invs.len()
    &&& igv(invs[key.1 as int]) == ssg_igusa(ssg_ram(c, d, e, p), d, e, p)
    &&& strictly_increasing(next)
    &&& exists|raw: Seq<usize>|
        raw.len() == 8 && (forall|k: int| 0 <= k < 8 ==> #[trigger] ssg_next_ok(invs, c, raw, k)) && (forall|w: usize|
            #[trigger] next.contains(w) <==> raw.contains(w))
}

/// The observation of the `m`-th isogeny out of the `a`-th surface comes at
/// this position: fifteen to a surface.
pub open spec fn ssg_obs(a: int, m: int) -> int {
    15 * a + m
}

/// The first `n` observations, fifteen to a surface in the order of the
/// surfaces.
#[verifier::opaque]
pub open spec fn ssg_observations<const P: u32, const D1: u32, const D2C0: u32, const D2C1: u32>(
    thetas: Seq<Theta<Fp4<P, D1, D2C0, D2C1>>>,
    invs: Seq<IgusaInvariants<Fp4<P, D1, D2C0, D2C1>>>,
    keys: Seq<(usize, usize)>,
    nexts: Seq<Seq<usize>>,
    n: int,
) -> bool {
    &&& keys.len() == n
    &&& nexts.len() == n
    &&& forall|a: int, m: int|
        0 <= a && 0 <= m < 15 && ssg_obs(a, m) < n ==> ssg_observed(
            thetas,
            invs,
            #[trigger] keys[ssg_obs(a, m)],
            nexts[ssg_obs(a, m)],
            a,
            m,
        )
}

/// The `m`-th isogeny out of the null-point `t`, or the `k`-th good
/// extension of its image, or the invariants of their images, cannot be
/// computed.
pub open spec fn ssg_stuck_at(t: Seq<F4>, m: int, k: int, d: int, e: (int, int), p: int) -> bool {
    0 <= m < 15 && 0 <= k < 8 && (!ssg_step_ok(t, m, d, e, p) || !ssg_step_ok(ssg_step(t, m, d, e, p), k, d, e, p))
}

/// The walk gets stuck at the null-point `t`: some isogeny out of it, or
/// some good extension of an image, or the invariants of an image, cannot be
/// computed.
pub open spec fn ssg_stuck(t: Seq<F4>, d: int, e: (int, int), p: int) -> bool {
    exists|m: int, k: int| #[trigger] ssg_stuck_at(t, m, k, d, e, p)
}

/// A good extension stays observed when surfaces are added after the known
/// ones and the list of surfaces grows at its end.
proof fn lemma_next_ok_grow<const P: u32, const D1: u32, const D2C0: u32, const D2C1: u32>(
    invs: Seq<IgusaInvariants<Fp4<P, D1, D2C0, D2C1>>>,
    invs2: Seq<IgusaInvariants<Fp4<P, D1, D2C0, D2C1>>>,
    c: Seq<F4>,
    raw: Seq<usize>,
    raw2: Seq<usize>,
    k: int,
)
    requires
        ssg_next_ok(invs, c, raw, k),
        invs.len() <= invs2.len(),
        forall|i: int| 0 <= i < invs.len() ==> invs2[i] == invs[i],
        0 <= k < raw.len() <= raw2.len(),
        raw2[k] == raw[k],
    ensures
        ssg_next_ok(invs2, c, raw2, k),
{
    reveal(ssg_next_ok);
    assert(invs2[raw[k] as int] == invs[raw[k] as int]);
}

/// An observation stays one when surfaces are added after the known ones.
proof fn lemma_observed_grow<const P: u32, const D1: u32, const D2C0: u32, const D2C1: u32>(
    thetas: Seq<Theta<Fp4<P, D1, D2C0, D2C1>>>,
    invs: Seq<IgusaInvariants<Fp4<P, D1, D2C0, D2C1>>>,
    thetas2: Seq<Theta<Fp4<P, D1, D2C0, D2C1>>>,
    invs2: Seq<IgusaInvariants<Fp4<P, D1, D2C0, D2C1>>>,
    key: (usize, usize),
    next: Seq<usize>,
    a: int,
    m: int,
)
    requires
        ssg_observed(thetas, invs, key, next, a, m),
        0 <= a < thetas.len(),
        thetas.len() <= thetas2.len(),
        invs.len() <= invs2.len(),
        forall|i: int| 0 <= i < thetas.len() ==> thetas2[i] == thetas[i],
        forall|i: int| 0 <= i < invs.len() ==> invs2[i] == invs[i],
    ensures
        ssg_observed(thetas2, invs2, key, next, a, m),
{
    reveal(ssg_observed);
    let (d, e, p) = (dmod(D1, P), d2_of(D2C0, D2C1, P), P as int);
    assert(thetas2[a] == thetas[a]);
    assert(invs2[key.1 as int] == invs[key.1 as int]);
    let c = ssg_step(tview(thetas[a]), m, d, e, p);
    let raw = choose|raw: Seq<usize>|
        raw.len() == 8 && (forall|k: int| 0 <= k < 8 ==> #[trigger] ssg_next_ok(invs, c, raw, k)) && (forall|w: usize|
            #[trigger] next.contains(w) <==> raw.contains(w));
    assert forall|k: int| 0 <= k < 8 implies #[trigger] ssg_next_ok(invs2, c, raw, k) by {
        lemma_next_ok_grow(invs, invs2, c, raw, raw, k);
    }
}

/// The observations stay ones when surfaces are added after the known ones.
proof fn lemma_observations_grow<const P: u32, const D1: u32, const D2C0: u32, const D2C1: u32>(
    thetas: Seq<Theta<Fp4<P, D1, D2C0, D2C1>>>,
    invs: Seq<IgusaInvariants<Fp4<P, D1, D2C0, D2C1>>>,
    thetas2: Seq<Theta<Fp4<P, D1, D2C0, D2C1>>>,
    invs2: Seq<IgusaInvariants<Fp4<P, D1, D2C0, D2C1>>>,
    keys: Seq<(usize, usize)>,
    nexts: Seq<Seq<usize>>,
    n: int,
)
    requires
        ssg_observations(thetas, invs, keys, nexts, n),
        n <= 15 * thetas.len(),
        thetas.len() <= thetas2.len(),
        invs.len() <= invs2.len(),
        forall|i: int| 0 <= i < thetas.len() ==> thetas2[i] == thetas[i],
        forall|i: int| 0 <= i < invs.len() ==> invs2[i] == invs[i],
    ensures
        ssg_observations(thetas2, invs2, keys, nexts, n),
{
    reveal(ssg_observations);
    assert forall|a: int, m: int| 0 <= a && 0 <= m < 15 && ssg_obs(a, m) < n implies ssg_observed(
        thetas2,
        invs2,
        #[trigger] keys[ssg_obs(a, m)],
        nexts[ssg_obs(a, m)],
        a,
        m,
    ) by {
        lemma_observed_grow(thetas, invs, thetas2, invs2, keys[ssg_obs(a, m)], nexts[ssg_obs(a, m)], a, m);
    }
}

/// One more observation, of the `m`-th isogeny out of the surface `h`, at the
/// next position.
proof fn lemma_observations_push<const P: u32, const D1: u32, const D2C0: u32, const D2C1: u32>(
    thetas: Seq<Theta<Fp4<P, D1, D2C0, D2C1>>>,
    invs: Seq<IgusaInvariants<Fp4<P, D1, D2C0, D2C1>>>,
    keys: Seq<(usize, usize)>,
    nexts: Seq<Seq<usize>>,
    key: (usize, usize),
    next: Seq<usize>,
    h: int,
    m: int,
)
    requires
        ssg_observations(thetas, invs, keys, nexts, ssg_obs(h, m)),
        0 <= h,
        0 <= m < 15,
        ssg_observed(thetas, invs, key, next, h, m),
    ensures
        ssg_observations(thetas, invs, keys.push(key), nexts.push(next), ssg_obs(h, m) + 1),
{
    reveal(ssg_observations);
    let n = ssg_obs(h, m);
    assert forall|a: int, m2: int| 0 <= a && 0 <= m2 < 15 && ssg_obs(a, m2) < n + 1 implies ssg_observed(
        thetas,
        invs,
        #[trigger] keys.push(key)[ssg_obs(a, m2)],
        nexts.push(next)[ssg_obs(a, m2)],
        a,
        m2,
    ) by {
        if ssg_obs(a, m2) < n {
            assert(keys.push(key)[ssg_obs(a, m2)] == keys[ssg_obs(a, m2)]);
            assert(nexts.push(next)[ssg_obs(a, m2)] == nexts[ssg_obs(a, m2)]);
        } else {
            assert(a == h && m2 == m);
        }
    }
}

/// The walk starts with one surface and no observation.
pub(crate) proof fn lemma_walk_start<const P: u32, const D1: u32, const D2C0: u32, const D2C1: u32>(
    initial: Rosenhain<Fp4<P, D1, D2C0, D2C1>>,
    theta0: Theta<Fp4<P, D1, D2C0, D2C1>>,
    inv0: IgusaInvariants<Fp4<P, D1, D2C0, D2C1>>,
)
    requires
        tview(theta0) == th_built4(initial.la@, initial.mu@, initial.nu@, dmod(D1, P), d2_of(D2C0, D2C1, P), P as int),
        igv(inv0) == igusa_of(initial.la@, initial.mu@, initial.nu@, dmod(D1, P), d2_of(D2C0, D2C1, P), P as int),
    ensures
        ssg_surfaces(initial, seq![theta0], seq![initial], seq![inv0]),
        ssg_observations(seq![theta0], seq![inv0], Seq::<(usize, usize)>::empty(), Seq::<Seq<usize>>::empty(), 0),
{
    reveal(ssg_surfaces);
    reveal(ssg_observations);
    reveal(ssg_igusa);
}

/// The image of the `m`-th isogeny out of `t`, its Rosenhain form and its
/// Igusa invariants; `None` where the isogeny or the invariants cannot be
/// computed.
pub fn neighbour<const P: u32, const D1: u32, const D2C0: u32, const D2C1: u32>(
    t: &Theta<Fp4<P, D1, D2C0, D2C1>>,
    m: usize,
) -> (r: Option<(Theta<Fp4<P, D1, D2C0, D2C1>>, Rosenhain<Fp4<P, D1, D2C0, D2C1>>, IgusaInvariants<Fp4<P, D1, D2C0, D2C1>>)>)
    requires
        f4_field(P, D1, D2C0, D2C1),
        P > 5,
        m < 15,
    ensures
        r is Some <==> ssg_step_ok(tview(*t), m as int, dmod(D1, P), d2_of(D2C0, D2C1, P), P as int),
        r matches Some((c, ram, inv)) ==> ({
            let (d, e, p) = (dmod(D1, P), d2_of(D2C0, D2C1, P), P as int);
            &&& tview(c) == ssg_step(tview(*t), m as int, d, e, p)
            &&& th_igusa_ok4(tview(c), d, e, p)
            &&& ramv(ram) == ssg_ram(tview(c), d, e, p)
            &&& igv(inv) == ssg_igusa(ramv(ram), d, e, p)
        }),
{
    proof {
        reveal(ssg_step_ok);
        reveal(ssg_step);
        reveal(ssg_ram);
        reveal(ssg_igusa);
    }
    if !t.twoisogeny_defined(m) {
        return None;
    }
    let c = t.compute_twoisogeny(m);
    match surface_invariants(&c) {
        Some((ram, inv)) => Some((c, ram, inv)),
        None => None,
    }
}

/// The number of the surface of the null-point `theta`, whose Rosenhain form
/// and Igusa invariants are `ram` and `inv`: the known surface with the same
/// invariants, or a new one added at the end.
fn intern_surface<const P: u32, const D1: u32, const D2C0: u32, const D2C1: u32>(
    initial: &Rosenhain<Fp4<P, D1, D2C0, D2C1>>,
    invs: &mut Vec<IgusaInvariants<Fp4<P, D1, D2C0, D2C1>>>,
    rams: &mut Vec<Rosenhain<Fp4<P, D1, D2C0, D2C1>>>,
    thetas: &mut Vec<Theta<Fp4<P, D1, D2C0, D2C1>>>,
    keys: &Vec<(usize, usize)>,
    nexts: &Vec<Vec<usize>>,
    theta: Theta<Fp4<P, D1, D2C0, D2C1>>,
    ram: Rosenhain<Fp4<P, D1, D2C0, D2C1>>,
    inv: IgusaInvariants<Fp4<P, D1, D2C0, D2C1>>,
) -> (id: usize)
    requires
        old(invs).len() < usize::MAX,
        old(thetas).len() == old(invs).len(),
        ssg_surfaces(*initial, old(thetas)@, old(rams)@, old(invs)@),
        ssg_observations(old(thetas)@, old(invs)@, keys@, seqs_of(nexts@), keys.len() as int),
        keys.len() <= 15 * old(thetas).len(),
        th_igusa_ok4(tview(theta), dmod(D1, P), d2_of(D2C0, D2C1, P), P as int),
        ramv(ram) == ssg_ram(tview(theta), dmod(D1, P), d2_of(D2C0, D2C1, P), P as int),
        igv(inv) == ssg_igusa(ramv(ram), dmod(D1, P), d2_of(D2C0, D2C1, P), P as int),
    ensures
        old(invs).len() <= final(invs).len() <= old(invs).len() + 1,
        final(thetas).len() == final(invs).len(),
        ssg_surfaces(*initial, final(thetas)@, final(rams)@, final(invs)@),
        ssg_observations(final(thetas)@, final(invs)@, keys@, seqs_of(nexts@), keys.len() as int),
        forall|i: int| 0 <= i < old(invs).len() ==> final(invs)@[i] == old(invs)@[i],
        forall|i: int| 0 <= i < old(thetas).len() ==> final(thetas)@[i] == old(thetas)@[i],
        id < final(invs).len(),
        igv(final(invs)@[id as int]) == igv(inv),
{
    proof {
        reveal(ssg_surfaces);
    }
    match find_invariants(invs, &inv) {
        Some(id) => id,
        None => {
            let ghost old_invs = invs@;
            let ghost old_thetas = thetas@;
            let ghost old_rams = rams@;
            let id = invs.len();
            invs.push(inv);
            rams.push(ram);
            thetas.push(theta);
            proof {
                lemma_observations_grow(old_thetas, old_invs, thetas@, invs@, keys@, seqs_of(nexts@), keys.len() as int);
                let (d, e, p) = (dmod(D1, P), d2_of(D2C0, D2C1, P), P as int);
                assert forall|i: int, j: int| 0 <= i < j < invs@.len() implies igv(#[trigger] invs@[i]) != igv(
                    #[trigger] invs@[j],
                ) by {
                    if j == id {
                        assert(igv(old_invs[i]) != igv(inv));
                    } else {
                        assert(invs@[i] == old_invs[i] && invs@[j] == old_invs[j]);
                    }
                }
                assert forall|i: int| 1 <= i < invs@.len() implies th_igusa_ok4(#[trigger] tview(thetas@[i]), d, e, p)
                    && ramv(rams@[i]) == ssg_ram(tview(thetas@[i]), d, e, p) by {
                    if i < id {
                        assert(thetas@[i] == old_thetas[i] && rams@[i] == old_rams[i]);
                    }
                }
                assert forall|i: int| 0 <= i < invs@.len() implies igv(#[trigger] invs@[i]) == ssg_igusa(
                    ramv(rams@[i]),
                    d,
                    e,
                    p,
                ) by {
                    if i < id {
                        assert(invs@[i] == old_invs[i] && rams@[i] == old_rams[i]);
                    }
                }
                assert(thetas@[0] == old_thetas[0] && rams@[0] == old_rams[0]);
            }
            id
        },
    }
}

/// Observe the fifteen isogenies out of the surface `h`, in order: the
/// surface of each image, and those of the images of its eight good
/// extensions. `false` where an isogeny, a good extension or Igusa invariants
/// cannot be computed.
#[verifier::spinoff_prover]
pub(crate) fn explore_surface<const P: u32, const D1: u32, const D2C0: u32, const D2C1: u32>(
    initial: &Rosenhain<Fp4<P, D1, D2C0, D2C1>>,
    h: usize,
    invs: &mut Vec<IgusaInvariants<Fp4<P, D1, D2C0, D2C1>>>,
    rams: &mut Vec<Rosenhain<Fp4<P, D1, D2C0, D2C1>>>,
    thetas: &mut Vec<Theta<Fp4<P, D1, D2C0, D2C1>>>,
    keys: &mut Vec<(usize, usize)>,
    nexts: &mut Vec<Vec<usize>>,
) -> (r: bool)
    requires
        f4_field(P, D1, D2C0, D2C1),
        P > 5,
        h < old(invs).len(),
        old(invs).len() + 135 < usize::MAX,
        ssg_surfaces(*initial, old(thetas)@, old(rams)@, old(invs)@),
        ssg_observations(old(thetas)@, old(invs)@, old(keys)@, seqs_of(old(nexts)@), ssg_obs(h as int, 0)),
    ensures
        r ==> old(invs).len() <= final(invs).len() <= old(invs).len() + 135 && ssg_surfaces(
            *initial,
            final(thetas)@,
            final(rams)@,
            final(invs)@,
        ) && ssg_observations(final(thetas)@, final(invs)@, final(keys)@, seqs_of(final(nexts)@), ssg_obs(h + 1, 0)),
        !r ==> ssg_stuck(tview(old(thetas)@[h as int]), dmod(D1, P), d2_of(D2C0, D2C1, P), P as int),
{
    let ghost d = dmod(D1, P);
    let ghost e = d2_of(D2C0, D2C1, P);
    let ghost p = P as int;
    let ghost n0 = invs.len();
    proof {
        reveal(ssg_surfaces);
        reveal(ssg_observations);
        assert(thetas.len() == invs.len() && keys.len() == ssg_obs(h as int, 0) && nexts.len() == ssg_obs(h as int, 0));
    }
    let t = thetas[h];
    let ghost tv = tview(t);
    let mut m: usize = 0;
    while m < 15
        invariant
            f4_field(P, D1, D2C0, D2C1),
            P > 5,
            d == dmod(D1, P),
            e == d2_of(D2C0, D2C1, P),
            p == P as int,
            m <= 15,
            h < invs.len(),
            n0 <= invs.len() <= n0 + 9 * m,
            n0 + 135 < usize::MAX,
            thetas@[h as int] == t,
            tv == tview(t),
            tv == tview(old(thetas)@[h as int]),
            ssg_surfaces(*initial, thetas@, rams@, invs@),
            ssg_observations(thetas@, invs@, keys@, seqs_of(nexts@), ssg_obs(h as int, m as int)),
            keys.len() == ssg_obs(h as int, m as int),
            nexts.len() == ssg_obs(h as int, m as int),
            thetas.len() == invs.len(),
        decreases 15 - m,
    {
        let (c, cram, cinv) = match neighbour(&t, m) {
            Some(x) => x,
            None => {
                proof {
                    assert(ssg_stuck_at(tv, m as int, 0, d, e, p));
                }
                return false;
            },
        };
        let ghost cv = tview(c);
        let ghost before = invs@;
        let cid = intern_surface(initial, invs, rams, thetas, keys, nexts, c, cram, cinv);
        let mut raw: Vec<usize> = Vec::new();
        let mut k: usize = 0;
        while k < 8
            invariant
                f4_field(P, D1, D2C0, D2C1),
                P > 5,
                d == dmod(D1, P),
                e == d2_of(D2C0, D2C1, P),
                p == P as int,
                m < 15,
                k <= 8,
                h < invs.len(),
                n0 <= invs.len() <= n0 + 9 * m + 1 + k,
                n0 + 135 < usize::MAX,
                thetas@[h as int] == t,
                tv == tview(t),
                tv == tview(old(thetas)@[h as int]),
                cv == tview(c),
                cv == ssg_step(tv, m as int, d, e, p),
                ssg_step_ok(tv, m as int, d, e, p),
                cid < invs.len(),
                igv(invs@[cid as int]) == ssg_igusa(ssg_ram(cv, d, e, p), d, e, p),
                ssg_surfaces(*initial, thetas@, rams@, invs@),
                ssg_observations(thetas@, invs@, keys@, seqs_of(nexts@), ssg_obs(h as int, m as int)),
                keys.len() == ssg_obs(h as int, m as int),
                nexts.len() == ssg_obs(h as int, m as int),
                thetas.len() == invs.len(),
                raw.len() == k,
                forall|q: int| 0 <= q < k ==> #[trigger] ssg_next_ok(invs@, cv, raw@, q),
            decreases 8 - k,
        {
            let (nt, nram, ninv) = match neighbour(&c, k) {
                Some(x) => x,
                None => {
                    proof {
                        assert(ssg_stuck_at(tv, m as int, k as int, d, e, p));
                    }
                    return false;
                },
            };
            let ghost old_invs = invs@;
            let nid = intern_surface(initial, invs, rams, thetas, keys, nexts, nt, nram, ninv);
            let ghost old_raw = raw@;
            raw.push(nid);
            proof {
                assert(invs@[cid as int] == old_invs[cid as int]);
                assert forall|q: int| 0 <= q < k + 1 implies #[trigger] ssg_next_ok(invs@, cv, raw@, q) by {
                    if q < k {
                        lemma_next_ok_grow(old_invs, invs@, cv, old_raw, raw@, q);
                    } else {
                        reveal(ssg_next_ok);
                    }
                }
            }
            k = k + 1;
        }
        let next = sorted_distinct(&raw);
        proof {
            assert(ssg_observed(thetas@, invs@, (h, cid), next@, h as int, m as int)) by {
                reveal(ssg_observed);
                assert(forall|k2: int| 0 <= k2 < 8 ==> #[trigger] ssg_next_ok(invs@, cv, raw@, k2));
                assert(forall|w: usize| #[trigger] next@.contains(w) <==> raw@.contains(w));
            }
            lemma_observations_push(thetas@, invs@, keys@, seqs_of(nexts@), (h, cid), next@, h as int, m as int);
        }
        let ghost old_nexts = nexts@;
        keys.push((h, cid));
        nexts.push(next);
        proof {
            assert(seqs_of(nexts@) =~= seqs_of(old_nexts).push(next@));
        }
        m = m + 1;
    }
    true
}

} // verus!
