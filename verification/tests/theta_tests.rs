use g2_isogeny::curves::{Legendre, Rosenhain};
use g2_isogeny::fq::{Fp, Fp2, Fp4};
use g2_isogeny::reachability::{intern_state, keep_surface, normalize_theta, MarkedEdge};
use std::collections::VecDeque;
use g2_isogeny::theta::{Theta, ISOGY_INDICES, ISOGY_SIGNS, TRANS_INDICES};

const P: u32 = 17;
const D1: u32 = 3;
const D2C0: u32 = 0;
const D2C1: u32 = 1;

type F2 = Fp2<P, D1>;
type F4 = Fp4<P, D1, D2C0, D2C1>;

fn c4(v: u32) -> F4 {
    F4::new(F2::new(Fp::<P>::new(v), Fp::<P>::zero()), F2::zero())
}

fn c2(a: u32, b: u32) -> F2 {
    F2::new(Fp::<P>::new(a), Fp::<P>::new(b))
}

fn theta_234() -> Theta<F4> {
    Theta::<F4>::from_rosenhain(&Rosenhain::new(c4(2), c4(3), c4(4)))
}

#[test]
fn rosenhain_survives_a_trip_through_theta() {
    let ram = Rosenhain::new(c4(2), c4(3), c4(4));
    let th = Theta::<F4>::from_rosenhain(&ram);
    assert_eq!(th.null[0], F4::one());
    assert_eq!(th.to_rosenhain(), ram);
    let ram2 = Rosenhain::new(c4(5), c4(7), c4(11));
    assert_eq!(Theta::<F4>::from_rosenhain(&ram2).to_rosenhain(), ram2);
}

#[test]
fn from_rosenhain_takes_square_roots_of_the_radicands() {
    let (la, mu, nu) = (c4(2), c4(3), c4(4));
    let one = F4::one();
    let th = Theta::<F4>::from_rosenhain(&Rosenhain::new(la, mu, nu));
    let den = la.mul(nu).mul(mu.sub(one)).mul(la.sub(nu));
    let r4 = mu.mul(mu.sub(one)).mul(la.sub(nu)).div(den);
    assert_eq!(th.null[4].mul(th.null[4]), r4);
    let r2 = mu.mul(la.sub(one)).mul(mu.sub(nu)).mul(nu).div(den);
    assert_eq!(th.null[2].mul(th.null[2]), r2);
}

#[test]
fn the_first_transformation_is_the_identity() {
    let th = theta_234();
    assert_eq!(th.transform_nullpoint(0), th);
}

#[test]
fn transformations_move_and_scale_coordinates() {
    let th = theta_234();
    let t = th.transform_nullpoint(1);
    let i = F4::imaginary_unit();
    assert_eq!(i.mul(i), F4::one().neg());
    // row 1 sends coordinate 0 to 4 unchanged and coordinate 1 to 1 times -i
    assert_eq!(TRANS_INDICES[1][0], 4);
    assert_eq!(t.null[4], th.null[0]);
    assert_eq!(t.null[1], i.neg().mul(th.null[1]));
}

#[test]
fn twoisogeny_sums_signed_products_of_square_roots() {
    let th = theta_234();
    let t = th.transform_nullpoint(0).null;
    let s = [
        t[0],
        t[0].mul(t[1]).sqrt().unwrap(),
        t[0].mul(t[2]).sqrt().unwrap(),
        t[0].mul(t[3]).sqrt().unwrap(),
    ];
    let image = th.compute_twoisogeny(0);
    for num in 0..10 {
        let mut acc = F4::zero();
        for k in 0..4 {
            let a = ISOGY_INDICES[k][num];
            let v = if a <= k { s[a].mul(s[k]) } else { s[k].mul(s[a]) };
            acc = if ISOGY_SIGNS[k][num] == 1 { acc.add(v) } else { acc.sub(v) };
        }
        assert_eq!(image.null[num], acc);
    }
}

#[test]
fn all_twoisogenies_over_fp4() {
    let th = theta_234();
    let all = th.compute_all_twoisogenies(false);
    assert_eq!(all.len(), 15);
    let good = th.compute_all_twoisogenies(true);
    assert_eq!(good.len(), 8);
    for m in 0..8 {
        assert_eq!(good[m], th.compute_twoisogeny(m));
        assert_eq!(all[m], good[m]);
    }
    assert_eq!(all[14], th.compute_twoisogeny(14));
}

/// The null-point of the square of a supersingular Legendre curve, split at 9.
fn theta_product() -> (Theta<F2>, F2) {
    let la = Legendre::<P, D1>::generate_ssg_legendre().la;
    let one = F2::one();
    let s1 = la.sqrt().unwrap();
    let s4 = one.sub(la).sqrt().unwrap();
    let null = [one, s1, s1, la, s4, s1.mul(s4), s4, s1.mul(s4), one.sub(la), F2::zero()];
    (Theta { null }, la)
}

#[test]
fn split_index_is_the_first_zero() {
    let (th, _) = theta_product();
    assert_eq!(th.find_split_index(), Some(9));
    let mut other = th;
    other.null[3] = F2::zero();
    assert_eq!(other.find_split_index(), Some(3));
    let jac = Theta { null: [c2(1, 0); 10] };
    assert_eq!(jac.find_split_index(), None);
}

#[test]
fn legendre_product_of_a_square_has_equal_j_invariants() {
    let (th, la) = theta_product();
    assert_eq!(la, c2(8, 4));
    let pair = th.to_legendre_product();
    // lambda' = 1 / (1 - lambda) lies in the orbit of lambda, so j agrees.
    assert_eq!(pair.e1.la, F2::one().sub(la).inv());
    let j = Legendre::new(la).j_invariant();
    assert_eq!(j, c2(8, 0));
    assert_eq!(pair.j_invariants(), (j, j));
}

#[test]
fn twoisogenies_over_fp2_keep_only_jacobians_when_asked() {
    let (th, _) = theta_product();
    let all = th.compute_all_twoisogenies(false, false);
    assert_eq!(all.len(), 15);
    for m in 0..15 {
        assert_eq!(all[m], th.compute_twoisogeny(m));
    }
    let jacobians = th.compute_all_twoisogenies(true, false);
    let expected: Vec<Theta<F2>> = all.iter().copied().filter(|t| t.find_split_index().is_none()).collect();
    assert_eq!(jacobians, expected);
    let good = th.compute_all_twoisogenies(false, true);
    assert_eq!(good.len(), 8);
}

#[test]
fn twoisogeny_over_fp2_with_a_zero_first_coordinate() {
    let (product, _) = theta_product();
    // transformation 14 moves the zero coordinate to 8, and 5 moves it on to 0
    let th = product.transform_nullpoint(14);
    assert_eq!(th.find_split_index(), Some(8));
    let m = 5;
    assert_eq!(TRANS_INDICES[m][8], 0);
    let t = th.transform_nullpoint(m).null;
    assert!(t[0].is_zero());
    let s = [F2::zero(), t[1], t[1].mul(t[2]).sqrt().unwrap(), t[1].mul(t[3]).sqrt().unwrap()];
    let image = th.compute_twoisogeny(m);
    for num in 0..10 {
        let mut acc = F2::zero();
        for k in 0..4 {
            let a = ISOGY_INDICES[k][num];
            let v = if a <= k { s[a].mul(s[k]) } else { s[k].mul(s[a]) };
            acc = if ISOGY_SIGNS[k][num] == 1 { acc.add(v) } else { acc.sub(v) };
        }
        assert_eq!(image.null[num], acc);
    }
}

#[test]
fn generated_superspecial_null_point_is_the_first_jacobian_neighbour() {
    let (product, _) = theta_product();
    let generated = Theta::<F2>::generate_ssp_theta();
    assert_eq!(generated.find_split_index(), None);
    assert_eq!(generated, product.compute_all_twoisogenies(true, false)[0]);
}

#[test]
fn normalizing_divides_by_the_first_nonzero_coordinate() {
    let mut null = [F2::zero(); 10];
    null[2] = c2(3, 1);
    null[5] = c2(6, 2);
    null[9] = c2(1, 0);
    let th = Theta { null };
    let n = normalize_theta(th);
    assert_eq!(n.null[0], F2::zero());
    assert_eq!(n.null[2], F2::one());
    assert_eq!(n.null[5], c2(2, 0));
    assert_eq!(n.null[9], c2(3, 1).inv());
    // scaling the null-point does not change its normal form
    let mut scaled = th;
    for k in 0..10 {
        scaled.null[k] = th.null[k].mul(c2(4, 7));
    }
    assert_eq!(normalize_theta(scaled), n);
}

#[test]
fn only_jacobians_keeps_surfaces_without_zero_coordinates() {
    let (product, _) = theta_product();
    assert!(keep_surface(&product, false));
    assert!(!keep_surface(&product, true));
    let jacobian = product.compute_all_twoisogenies(true, false)[0];
    assert!(keep_surface(&jacobian, true));
}

fn marked(source_id: usize, target_id: usize, first: u32) -> MarkedEdge<P, D1> {
    let mut null = [c2(1, 0); 10];
    null[0] = c2(first, 2);
    MarkedEdge { source_id, target_id, null }
}

#[test]
fn marked_edge_gives_its_theta_and_coarse_pair() {
    let e = marked(3, 5, 4);
    assert_eq!(e.coarse_pair(), (3, 5));
    assert_eq!(e.theta().null, e.null);
    assert!(e.same_state(&marked(3, 5, 4)));
    assert!(!e.same_state(&marked(3, 5, 6)));
    assert!(!e.same_state(&marked(5, 3, 4)));
}

#[test]
fn interning_appends_new_states_and_finds_old_ones() {
    let mut states = Vec::new();
    let mut adjacency: Vec<Vec<usize>> = Vec::new();
    let mut queue = VecDeque::new();
    assert_eq!(intern_state(marked(0, 1, 4), &mut states, &mut adjacency, &mut queue), 0);
    assert_eq!(intern_state(marked(1, 2, 4), &mut states, &mut adjacency, &mut queue), 1);
    assert_eq!(intern_state(marked(0, 1, 5), &mut states, &mut adjacency, &mut queue), 2);
    adjacency[1] = vec![2];
    // a state seen before keeps its id and changes nothing
    assert_eq!(intern_state(marked(1, 2, 4), &mut states, &mut adjacency, &mut queue), 1);
    assert_eq!(states.len(), 3);
    assert_eq!(adjacency, vec![vec![], vec![2], vec![]]);
    assert_eq!(queue.iter().copied().collect::<Vec<_>>(), vec![0, 1, 2]);
}

#[test]
fn each_twoisogeny_is_the_first_one_of_its_transform_over_fp4() {
    let th = theta_234();
    for m in 0..15 {
        assert_eq!(th.compute_twoisogeny(m), th.transform_nullpoint(m).compute_twoisogeny(0), "m = {}", m);
    }
}

#[test]
fn each_twoisogeny_is_the_first_one_of_its_transform_over_fp2() {
    let (th, _) = theta_product();
    for m in 0..15 {
        assert_eq!(th.compute_twoisogeny(m), th.transform_nullpoint(m).compute_twoisogeny(0), "m = {}", m);
    }
}
