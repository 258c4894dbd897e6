use g2_isogeny::curves::{IgusaInvariants, Rosenhain};
use g2_isogeny::fq::{Fp, Fp2, Fp4};

const P: u32 = 17;
const D1: u32 = 3;
const D2C0: u32 = 0;
const D2C1: u32 = 1;

type F4 = Fp4<P, D1, D2C0, D2C1>;

fn c(v: u32) -> F4 {
    F4::new(Fp2::<P, D1>::new(Fp::<P>::new(v), Fp::<P>::zero()), Fp2::<P, D1>::zero())
}

fn igusa(la: F4, mu: F4, nu: F4) -> IgusaInvariants<F4> {
    Rosenhain::new(la, mu, nu).igusa_invariants()
}

#[test]
fn igusa_invariants_exact_value() {
    let r = igusa(c(2), c(3), c(4));
    assert_eq!(r.i1, c(9));
    assert_eq!(r.i2, c(8));
    assert_eq!(r.i3, c(16));
}

#[test]
fn igusa_invariants_ignore_the_order_of_branch_points() {
    let r = igusa(c(2), c(3), c(4));
    assert_eq!(igusa(c(3), c(2), c(4)), r);
    assert_eq!(igusa(c(4), c(3), c(2)), r);
    assert_eq!(igusa(c(2), c(4), c(3)), r);
}

#[test]
fn igusa_invariants_ignore_the_model_of_the_curve() {
    let r = igusa(c(2), c(3), c(4));
    // x -> 1 / x maps the Rosenhain form (la, mu, nu) to (1/la, 1/mu, 1/nu).
    assert_eq!(igusa(c(2).inv(), c(3).inv(), c(4).inv()), r);
    // x -> 1 - x maps it to (1 - la, 1 - mu, 1 - nu).
    let one = F4::one();
    assert_eq!(igusa(one.sub(c(2)), one.sub(c(3)), one.sub(c(4))), r);
}

#[test]
fn igusa_invariants_tell_curves_apart() {
    let r = igusa(c(2), c(3), c(5));
    assert_eq!(r.i1, c(11));
    assert_eq!(r.i2, c(7));
    assert_eq!(r.i3, c(7));
    assert_ne!(r, igusa(c(2), c(3), c(4)));
}

#[test]
fn igusa_invariants_avoid_the_branch_points() {
    // 2, 3 and 4 are branch points here, so the point 5 is sent to infinity.
    let r = igusa(c(2), c(3), c(4));
    let s = Rosenhain::new(c(4), c(2), c(3)).igusa_invariants();
    assert_eq!(r, s);
}
