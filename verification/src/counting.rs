//! The number of nodes in isogeny graphs
use vstd::prelude::*;

verus! {

/// `1` when `b` holds and `-1` otherwise: the value of a Legendre symbol.
pub open spec fn sign(b: bool) -> int {
    if b {
        1
    } else {
        -1
    }
}

/// The number of superspecial genus-2 curves (up to isomorphism) over the
/// algebraic closure of `F_p`, by the class-number style formula of the
/// supersingular graph: `p^2 (p^2 - 1)^2 / 2880` when `p = +-1 (mod 5)`, and
/// `1 + (p^2 - 9)(p^2 - 3p + 8)(p^2 + 3p + 8) / 2880` otherwise, with integer
/// division.
pub open spec fn ssg_nodes(p: int) -> int {
    let p2 = p * p;
    if p % 5 == 1 || p % 5 == 4 {
        (p2 * (p2 - 1) * (p2 - 1)) / 2880
    } else {
        1 + ((p2 - 9) * (p2 - 3 * p + 8) * (p2 + 3 * p + 8)) / 2880
    }
}

/// `2880` times the number of superspecial abelian surfaces given by the
/// formula, with the Legendre symbols `(-1|p)`, `(-2|p)`, `(-3|p)` read off
/// `p mod 4`, `p mod 8` and `p mod 3`.
pub open spec fn ssp_scaled(p: int) -> int {
    let l1 = sign(p % 4 == 1);
    let l2 = sign(p % 8 == 1 || p % 8 == 3);
    let l3 = sign(p % 3 == 1);
    (p - 1) * (p + 12) * (p + 23) + 30 * (2 * p + 13) * (1 - l1) + 360 * (1 - l2) + 80 * (p + 11)
        * (1 - l3) + 240 * (1 - l1) * (1 - l3) + (if p % 5 == 4 {
        2304int
    } else {
        0int
    })
}

/// `2880` times the number of superspecial Jacobians given by the formula.
pub open spec fn ssp_jacobian_scaled(p: int) -> int {
    let l1 = sign(p % 4 == 1);
    let l2 = sign(p % 8 == 1 || p % 8 == 3);
    let l3 = sign(p % 3 == 1);
    (p - 1) * (p * p + 25 * p + 166) - 90 * (1 - l1) + 360 * (1 - l2) + 160 * (1 - l3) + (if p % 5
        == 4 {
        2304int
    } else {
        0int
    })
}

/// The integer nearest to `x / 2880` for `x >= 0`, halves rounded up.
pub open spec fn round_2880(x: int) -> int {
    (x + 1440) / 2880
}

/// The number of vertices of the superspecial genus-2 isogeny graph over `F_p`.
/// The products are computed in `u128`, so `p` must keep them in range; for
/// `p = +-2 (mod 5)` the formula needs `p >= 3`.
pub fn number_of_ssg_nodes(p_u32: u32) -> (r: u128)
    requires
        (p_u32 as int) * (p_u32 as int) * ((p_u32 as int) * (p_u32 as int)) * ((p_u32 as int) * (
        p_u32 as int)) <= u128::MAX,
        !(p_u32 % 5 == 1 || p_u32 % 5 == 4) ==> p_u32 >= 3,
    ensures
        r == ssg_nodes(p_u32 as int),
        ({
            // p^2 (p^2 - 1)^2 / 2880 for p = +-1 (mod 5), and
            // 1 + (p^2 - 9)(p^2 - 3p + 8)(p^2 + 3p + 8) / 2880 otherwise, rounded down
            let p = p_u32 as int;
            let t = if p % 5 == 1 || p % 5 == 4 {
                p * p * (p * p - 1) * (p * p - 1)
            } else {
                (p * p - 9) * (p * p - 3 * p + 8) * (p * p + 3 * p + 8)
            };
            let c = if p % 5 == 1 || p % 5 == 4 { r as int } else { r - 1 };
            0 <= t - 2880 * c < 2880
        }),
{
    let p = p_u32 as u128;
    proof {
        assert((p as int) * (p as int) <= 0xffff_ffff * 0xffff_ffff) by (nonlinear_arith)
            requires
                p <= 0xffff_ffff,
        ;
    }
    let p2 = p * p;
    let ghost q = p2 as int;
    let ghost pp = p as int;
    proof {
        assert(q * q * q <= u128::MAX);
        assert(q == pp * pp);
    }
    if p % 5 == 1 || p % 5 == 4 {
        if p2 == 0 {
            proof {
                assert(q * (q - 1) * (q - 1) == 0);
            }
            return 0;
        }
        proof {
            assert(q * (q - 1) * (q - 1) <= q * q * q && 0 <= q * (q - 1) && q * (q - 1) <= q * q && q * (q - 1) <= u128::MAX) by (nonlinear_arith)
                requires
                    q >= 1,
                    q * q * q <= u128::MAX,
            ;
        }
        ((p2) * (p2 - 1) * (p2 - 1)) / 2880
    } else {
        proof {
            assert(q >= 9 && q >= 3 * pp && q + 3 * pp + 8 <= 3 * q) by (nonlinear_arith)
                requires
                    pp >= 3,
                    q == pp * pp,
            ;
            assert(0 <= (q - 9) * (q - 3 * pp + 8) <= q * q) by (nonlinear_arith)
                requires
                    pp >= 3,
                    q == pp * pp,
                    q >= 9,
                    q >= 3 * pp,
            ;
            assert((q - 9) * (q - 3 * pp + 8) * (q + 3 * pp + 8) == (q - 9) * (q * q + 7 * q + 64))
                by (nonlinear_arith)
                requires
                    q == pp * pp,
            ;
            assert(0 <= (q - 9) * (q * q + 7 * q + 64) <= q * q * q) by (nonlinear_arith)
                requires
                    q >= 9,
            ;
            assert(q * q <= q * q * q) by (nonlinear_arith)
                requires
                    q >= 1,
            ;
        }
        1 + ((p2 - 9) * (p2 - 3 * p + 8) * (p2 + 3 * p + 8)) / 2880
    }
}

/// The number of superspecial abelian surfaces over `F_p` by the closed
/// formula, rounded to the nearest integer. The formula is exact in integer
/// arithmetic: the terms are scaled by 2880. It reads the symbol `(-2|p)`
/// from `p mod 8`, so `p` must be odd.
pub fn number_of_ssp_nodes(p_u32: u32) -> (r: u128)
    requires
        p_u32 % 2 == 1,
    ensures
        r == round_2880(ssp_scaled(p_u32 as int)),
        ({
            // the class-number formula, each term scaled by 2880:
            // (p-1)(p+12)(p+23)/2880 + (2p+13)(1-(-1|p))/96 + (1-(-2|p))/8
            // + (p+11)(1-(-3|p))/36 + (1-(-1|p))(1-(-3|p))/12 + [p = 4 mod 5] 4/5
            let p = p_u32 as int;
            let s1: int = if p % 4 == 1 { 1 } else { -1 };
            let s2: int = if p % 8 == 1 || p % 8 == 3 { 1 } else { -1 };
            let s3: int = if p % 3 == 1 { 1 } else { -1 };
            let t = (p - 1) * (p + 12) * (p + 23) + 30 * ((2 * p + 13) * (1 - s1)) + 360 * (1 - s2) + 80 * ((p + 11) * (1
                - s3)) + 240 * ((1 - s1) * (1 - s3)) + (if p % 5 == 4 { 576 * 4 } else { 0 });
            -1440 < 2880 * r - t <= 1440
        }),
        p_u32 % 3 != 0 ==> r == round_2880(ssp_jacobian_scaled(p_u32 as int)) + ss_elliptic_count(p_u32 as int) * (
        ss_elliptic_count(p_u32 as int) + 1) / 2,
{
    proof {
        if p_u32 % 3 != 0 {
            lemma_ssp_nodes_split(p_u32 as int);
        }
    }
    let p = p_u32 as u128;
    let m1: u128 = if p_u32 % 4 == 1 { 0 } else { 2 };
    let m2: u128 = if p_u32 % 8 == 1 || p_u32 % 8 == 3 { 0 } else { 2 };
    let m3: u128 = if p_u32 % 3 == 1 { 0 } else { 2 };
    let five: u128 = if p_u32 % 5 == 4 { 2304 } else { 0 };
    proof {
        assert(0 <= (p as int - 1) * (p + 12) <= 0x2_0000_0000 * 0x2_0000_0000) by (nonlinear_arith)
            requires
                1 <= p <= 0xffff_ffff,
        ;
        assert(0 <= (p as int - 1) * (p + 12) * (p + 23) <= 0x2_0000_0000 * 0x2_0000_0000 * 0x2_0000_0000)
            by (nonlinear_arith)
            requires
                1 <= p <= 0xffff_ffff,
                0 <= (p as int - 1) * (p + 12) <= 0x2_0000_0000 * 0x2_0000_0000,
        ;
    }
    let mut num = (p - 1) * (p + 12) * (p + 23);
    num = num + 30 * (2 * p + 13) * m1;
    num = num + 360 * m2;
    num = num + 80 * (p + 11) * m3;
    num = num + 240 * m1 * m3;
    num = num + five;
    proof {
        let pi = p_u32 as int;
        let s1: int = if pi % 4 == 1 { 1 } else { -1 };
        let s3: int = if pi % 3 == 1 { 1 } else { -1 };
        assert(30 * ((2 * pi + 13) * (1 - s1)) == 30 * (2 * pi + 13) * m1) by (nonlinear_arith)
            requires
                m1 == 1 - s1,
        ;
        assert(80 * ((pi + 11) * (1 - s3)) == 80 * (pi + 11) * m3) by (nonlinear_arith)
            requires
                m3 == 1 - s3,
        ;
        assert(240 * ((1 - s1) * (1 - s3)) == 240 * m1 * m3) by (nonlinear_arith)
            requires
                m1 == 1 - s1,
                m3 == 1 - s3,
        ;
    }
    (num + 1440) / 2880
}

/// The number of superspecial Jacobians over `F_p` by the closed formula,
/// rounded to the nearest integer, computed exactly with the terms scaled by
/// 2880. It reads the symbol `(-2|p)` from `p mod 8`, so `p` must be odd.
pub fn number_of_ssp_jacobian_nodes(p_u32: u32) -> (r: u128)
    requires
        p_u32 % 2 == 1,
    ensures
        r == round_2880(ssp_jacobian_scaled(p_u32 as int)),
        ({
            // the class-number formula, each term scaled by 2880:
            // (p-1)(p^2+25p+166)/2880 - (1-(-1|p))/32 + (1-(-2|p))/8
            // + (1-(-3|p))/18 + [p = 4 mod 5] 4/5
            let p = p_u32 as int;
            let s1: int = if p % 4 == 1 { 1 } else { -1 };
            let s2: int = if p % 8 == 1 || p % 8 == 3 { 1 } else { -1 };
            let s3: int = if p % 3 == 1 { 1 } else { -1 };
            let t = (p - 1) * (p * p + 25 * p + 166) - 90 * (1 - s1) + 360 * (1 - s2) + 160 * (1 - s3) + (if p % 5
                == 4 { 576 * 4 } else { 0 });
            -1440 < 2880 * r - t <= 1440
        }),
{
    let p = p_u32 as u128;
    let m1: u128 = if p_u32 % 4 == 1 { 0 } else { 2 };
    let m2: u128 = if p_u32 % 8 == 1 || p_u32 % 8 == 3 { 0 } else { 2 };
    let m3: u128 = if p_u32 % 3 == 1 { 0 } else { 2 };
    let five: u128 = if p_u32 % 5 == 4 { 2304 } else { 0 };
    proof {
        assert(0 <= (p as int) * (p as int) <= 0x1_0000_0000 * 0x1_0000_0000) by (nonlinear_arith)
            requires
                1 <= p <= 0xffff_ffff,
        ;
        assert(0 <= (p as int - 1) * (p * p + 25 * p + 166) <= 0x1_0000_0000 * (0x2_0000_0000 * 0x2_0000_0000))
            by (nonlinear_arith)
            requires
                1 <= p <= 0xffff_ffff,
                0 <= (p as int) * (p as int) <= 0x1_0000_0000 * 0x1_0000_0000,
        ;
        if m1 == 2 {
            assert(p_u32 % 4 == 3);
            assert((p as int - 1) * (p * p + 25 * p + 166) >= 180) by (nonlinear_arith)
                requires
                    p >= 3,
            ;
        }
    }
    let mut num = (p - 1) * (p * p + 25 * p + 166);
    num = num - 90 * m1;
    num = num + 360 * m2;
    num = num + 160 * m3;
    num = num + five;
    (num + 1440) / 2880
}

/// The number of supersingular elliptic curves (up to isomorphism) over the
/// algebraic closure of `F_p`, for `p` prime to 6: `floor(p / 12)` plus 0, 1,
/// 1, 2 for `p = 1, 5, 7, 11 (mod 12)`.
pub open spec fn ss_elliptic_count(p: int) -> int {
    p / 12 + (if p % 12 == 1 {
        0int
    } else if p % 12 == 5 || p % 12 == 7 {
        1int
    } else {
        2int
    })
}

/// The class-number formulas split: the superspecial surfaces that are not
/// Jacobians are the products `E1 x E2` of supersingular elliptic curves, one
/// for each unordered pair, so `number_of_ssp_nodes(p)` exceeds
/// `number_of_ssp_jacobian_nodes(p)` by `h (h + 1) / 2`, `h` the number of
/// supersingular elliptic curves.
pub proof fn lemma_ssp_nodes_split(p: int)
    requires
        p >= 1,
        p % 2 == 1,
        p % 3 != 0,
    ensures
        round_2880(ssp_scaled(p)) == round_2880(ssp_jacobian_scaled(p)) + ss_elliptic_count(p) * (ss_elliptic_count(p) + 1)
            / 2,
{
    let k = p / 12;
    let r = p % 12;
    let h = ss_elliptic_count(p);
    assert(p == 12 * k + r);
    let l1 = sign(p % 4 == 1);
    let l3 = sign(p % 3 == 1);
    let f = (if p % 5 == 4 { 2304int } else { 0int });
    let l2 = sign(p % 8 == 1 || p % 8 == 3);
    let diff = 10 * (p - 1) * (p + 11) + 30 * (2 * p + 13) * (1 - l1) + 90 * (1 - l1) + 80 * (p + 11) * (1 - l3) - 160 * (1
        - l3) + 240 * (1 - l1) * (1 - l3);
    assert(ssp_scaled(p) == ssp_jacobian_scaled(p) + diff) by (nonlinear_arith)
        requires
            ssp_scaled(p) == (p - 1) * (p + 12) * (p + 23) + 30 * (2 * p + 13) * (1 - l1) + 360 * (1 - l2) + 80 * (p + 11) * (1
                - l3) + 240 * (1 - l1) * (1 - l3) + f,
            ssp_jacobian_scaled(p) == (p - 1) * (p * p + 25 * p + 166) - 90 * (1 - l1) + 360 * (1 - l2) + 160 * (1 - l3) + f,
            diff == 10 * (p - 1) * (p + 11) + 30 * (2 * p + 13) * (1 - l1) + 90 * (1 - l1) + 80 * (p + 11) * (1 - l3) - 160 * (1
                - l3) + 240 * (1 - l1) * (1 - l3),
    ;
    if r == 1 {
        assert(l1 == 1 && l3 == 1);
        assert(h == k);
        assert(diff == 1440 * h * (h + 1)) by (nonlinear_arith)
            requires
                p == 12 * k + 1,
                h == k,
                l1 == 1,
                l3 == 1,
                diff == 10 * (p - 1) * (p + 11) + 30 * (2 * p + 13) * (1 - l1) + 90 * (1 - l1) + 80 * (p + 11) * (1 - l3) - 160
                    * (1 - l3) + 240 * (1 - l1) * (1 - l3),
        ;
    } else if r == 5 {
        assert(l1 == 1 && l3 == -1);
        assert(h == k + 1);
        assert(diff == 1440 * h * (h + 1)) by (nonlinear_arith)
            requires
                p == 12 * k + 5,
                h == k + 1,
                l1 == 1,
                l3 == -1,
                diff == 10 * (p - 1) * (p + 11) + 30 * (2 * p + 13) * (1 - l1) + 90 * (1 - l1) + 80 * (p + 11) * (1 - l3) - 160
                    * (1 - l3) + 240 * (1 - l1) * (1 - l3),
        ;
    } else if r == 7 {
        assert(l1 == -1 && l3 == 1);
        assert(h == k + 1);
        assert(diff == 1440 * h * (h + 1)) by (nonlinear_arith)
            requires
                p == 12 * k + 7,
                h == k + 1,
                l1 == -1,
                l3 == 1,
                diff == 10 * (p - 1) * (p + 11) + 30 * (2 * p + 13) * (1 - l1) + 90 * (1 - l1) + 80 * (p + 11) * (1 - l3) - 160
                    * (1 - l3) + 240 * (1 - l1) * (1 - l3),
        ;
    } else {
        assert(r == 11);
        assert(l1 == -1 && l3 == -1);
        assert(h == k + 2);
        assert(diff == 1440 * h * (h + 1)) by (nonlinear_arith)
            requires
                p == 12 * k + 11,
                h == k + 2,
                l1 == -1,
                l3 == -1,
                diff == 10 * (p - 1) * (p + 11) + 30 * (2 * p + 13) * (1 - l1) + 90 * (1 - l1) + 80 * (p + 11) * (1 - l3) - 160
                    * (1 - l3) + 240 * (1 - l1) * (1 - l3),
        ;
    }
    let pairs = h * (h + 1) / 2;
    assert(h * (h + 1) == 2 * pairs) by {
        let m = h / 2;
        let q = if h % 2 == 0 { m * (h + 1) } else { h * (m + 1) };
        assert(h * (h + 1) == q * 2) by (nonlinear_arith)
            requires
                h == 2 * m + h % 2,
                0 <= h % 2 < 2,
                q == (if h % 2 == 0 { m * (h + 1) } else { h * (m + 1) }),
        ;
        vstd::arithmetic::div_mod::lemma_fundamental_div_mod_converse(h * (h + 1), 2, q, 0);
    }
    assert(diff == 2880 * pairs) by (nonlinear_arith)
        requires
            diff == 1440 * h * (h + 1),
            h * (h + 1) == 2 * pairs,
    ;
    assert(round_2880(ssp_scaled(p)) == round_2880(ssp_jacobian_scaled(p)) + pairs) by {
        let x = ssp_jacobian_scaled(p);
        assert(ssp_scaled(p) == x + 2880 * pairs);
        let y = x + 1440;
        let q0 = y / 2880;
        let r0 = y % 2880;
        assert(y == q0 * 2880 + r0 && 0 <= r0 < 2880);
        vstd::arithmetic::div_mod::lemma_fundamental_div_mod_converse(y + 2880 * pairs, 2880, q0 + pairs, r0);
    }
}

} // verus!
