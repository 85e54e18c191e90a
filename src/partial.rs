//! Lehmer's partial extended Euclidean algorithm, for NUCOMP and NUDUPL.
//!
//! Input: `r2 = R_{-1}`, `r1 = R_0` and a bound. Output: `r2 = R_{i-1}`,
//! `r1 = R_i` with `R_i == 0` or `R_i <= bound`, and cofactors `c2`, `c1`
//! with `c2*r1 - c1*r2 == +-r2_orig`.
use crate::mpz::{Mpz, abs, divides, floor_div, floor_mod};
use vstd::prelude::*;

verus! {

/// `r + c*r1_orig` is a multiple of `r2_orig`: `r == -c*r1_orig (mod r2_orig)`.
pub open spec fn tracks(r2_0: int, r1_0: int, r: int, c: int) -> bool {
    divides(r2_0, r + c * r1_0)
}

/// The value that the cofactors keep, up to sign, through every step.
pub open spec fn cofactor_identity(c2: int, c1: int, r2: int, r1: int) -> int {
    abs(c2 * r1 - c1 * r2)
}

pub struct PartialGCDContext {}

impl PartialGCDContext {
    pub fn new() -> (r: PartialGCDContext) {
        PartialGCDContext {  }
    }

    /// Lehmer extended GCD with early termination: the remainders `r2`, `r1`
    /// are carried down until `r1` is 0 or at most `bound`, with cofactors
    /// such that `|c2*r1 - c1*r2|` is the starting `r2`.
    pub fn xgcd_partial(&self, c2: &mut Mpz, c1: &mut Mpz, r2: &mut Mpz, r1: &mut Mpz, bound: &Mpz)
        requires
            old(r2)@ >= 0,
            old(r1)@ >= 0,
        ensures
            cofactor_identity(final(c2)@, final(c1)@, final(r2)@, final(r1)@) == old(r2)@,
            final(r2)@ >= 0,
            final(r1)@ >= 0,
            final(r1)@ == 0 || final(r1)@ <= bound@,
            tracks(old(r2)@, old(r1)@, final(r1)@, final(c1)@),
            tracks(old(r2)@, old(r1)@, final(r2)@, final(c2)@),
            old(r1)@ == 0 || old(r1)@ <= bound@ ==> final(c1)@ == -1 && final(c2)@ == 0,
            old(r1)@ == 0 || old(r1)@ <= bound@ ==> final(r1)@ == old(r1)@ && final(r2)@ == old(r2)@,
            old(r1)@ != 0 && old(r1)@ > bound@ ==> final(r2)@ > bound@,
    {
        let ghost r2_0 = r2@;
        let ghost r1_0 = r1@;
        c1.set_si(-1);
        c2.set_si(0);
        assert(c2@ * r1@ - c1@ * r2@ == r2@) by (nonlinear_arith)
            requires
                c2@ == 0,
                c1@ == -1,
        ;
        assert(r2_0 * 0 == r1@ + c1@ * r1_0) by (nonlinear_arith)
            requires
                c1@ == -1,
                r1@ == r1_0,
        ;
        assert(r2_0 * 1 == r2@ + c2@ * r1_0) by (nonlinear_arith)
            requires
                c2@ == 0,
                r2@ == r2_0,
        ;
        let ghost mut stepped = false;
        while r1.sgn() != 0 && r1.cmp_mpz(bound) > 0
            invariant
                stepped ==> r2@ > bound@,
                r1_0 != 0 && r1_0 > bound@ && !stepped ==> r1@ == r1_0,
                cofactor_identity(c2@, c1@, r2@, r1@) == r2_0,
                r2@ >= 0,
                r1@ >= 0,
                tracks(r2_0, r1_0, r1@, c1@),
                tracks(r2_0, r1_0, r2@, c2@),
                r1_0 == 0 || r1_0 <= bound@ ==> c1@ == -1 && c2@ == 0 && r1@ == r1_0 && r2@ == r2_0,
            decreases r1@,
        {
            let t = r2.bit_length();
            let t1 = r1.bit_length();
            let top = if t > t1 {
                t
            } else {
                t1
            };
            // beyond a u32 shift the word step is skipped
            let bits: u32 = if top >= 64 && top - 63 <= u32::MAX as usize {
                (top - 63) as u32
            } else {
                0
            };
            let mut r = Mpz::zero();
            r.fdiv_q_2exp(r2, bits);
            let rr2 = r.to_i64();
            r.fdiv_q_2exp(r1, bits);
            let rr1 = r.to_i64();
            r.fdiv_q_2exp(bound, bits);
            let bb = r.to_i64();
            let m = match (rr2, rr1, bb) {
                (Some(x2), Some(x1), Some(xb)) => lehmer_matrix(x2, x1, xb),
                _ => None,
            };
            let progressed = match m {
                Some((a1, a2, b1, b2)) => Self::recombine(
                    c2,
                    c1,
                    r2,
                    r1,
                    a1,
                    a2,
                    b1,
                    b2,
                    bound,
                    Ghost(r2_0),
                    Ghost(r1_0),
                ),
                None => false,
            };
            if !progressed {
                Self::euclid_step(c2, c1, r2, r1, Ghost(r2_0), Ghost(r1_0));
            }
            proof {
                stepped = true;
            }
        }
    }

    /// One exact step: `(r2, r1)` becomes `(r1, r2 mod r1)`, and the
    /// cofactors follow.
    fn euclid_step(
        c2: &mut Mpz,
        c1: &mut Mpz,
        r2: &mut Mpz,
        r1: &mut Mpz,
        r2_0: Ghost<int>,
        r1_0: Ghost<int>,
    )
        requires
            old(r2)@ >= 0,
            old(r1)@ > 0,
            tracks(r2_0@, r1_0@, old(r1)@, old(c1)@),
            tracks(r2_0@, r1_0@, old(r2)@, old(c2)@),
        ensures
            tracks(r2_0@, r1_0@, final(r1)@, final(c1)@),
            tracks(r2_0@, r1_0@, final(r2)@, final(c2)@),
            final(r2)@ == old(r1)@,
            final(r1)@ == floor_mod(old(r2)@, old(r1)@),
            0 <= final(r1)@ < old(r1)@,
            cofactor_identity(final(c2)@, final(c1)@, final(r2)@, final(r1)@) == cofactor_identity(
                old(c2)@,
                old(c1)@,
                old(r2)@,
                old(r1)@,
            ),
    {
        let ghost (oc2, oc1, or2, or1) = (c2@, c1@, r2@, r1@);
        let mut q = Mpz::zero();
        let tmp = r2.copy();
        q.fdiv_qr(r2, &tmp, r1);
        r2.swap(r1);
        c2.submul(c1, &q);
        c2.swap(c1);
        proof {
            let qq = floor_div(or2, or1);
            assert(0 <= or2 - or1 * qq < or1) by (nonlinear_arith)
                requires
                    or1 > 0,
                    or2 >= 0,
                    qq == or2 / or1,
            ;
            assert(oc1 * (or2 - or1 * qq) - (oc2 - oc1 * qq) * or1 == -(oc2 * or1 - oc1 * or2))
                by (nonlinear_arith);
            let (n, z) = (r2_0@, r1_0@);
            let k1 = choose|k: int| #[trigger] (n * k) == or1 + oc1 * z;
            let k2 = choose|k: int| #[trigger] (n * k) == or2 + oc2 * z;
            assert(n * (k2 - qq * k1) == (or2 - or1 * qq) + (oc2 - oc1 * qq) * z) by (nonlinear_arith)
                requires
                    n * k1 == or1 + oc1 * z,
                    n * k2 == or2 + oc2 * z,
            ;
        }
    }

    /// Applies the word matrix to the full numbers; keeps the result only
    /// where it is a step down that keeps the cofactor identity.
    fn recombine(
        c2: &mut Mpz,
        c1: &mut Mpz,
        r2: &mut Mpz,
        r1: &mut Mpz,
        a1: i64,
        a2: i64,
        b1: i64,
        b2: i64,
        bound: &Mpz,
        r2_0: Ghost<int>,
        r1_0: Ghost<int>,
    ) -> (progressed: bool)
        requires
            old(r2)@ >= 0,
            old(r1)@ > 0,
            tracks(r2_0@, r1_0@, old(r1)@, old(c1)@),
            tracks(r2_0@, r1_0@, old(r2)@, old(c2)@),
        ensures
            tracks(r2_0@, r1_0@, final(r1)@, final(c1)@),
            tracks(r2_0@, r1_0@, final(r2)@, final(c2)@),
            !progressed ==> final(c2)@ == old(c2)@ && final(c1)@ == old(c1)@ && final(r2)@ == old(
                r2,
            )@ && final(r1)@ == old(r1)@,
            progressed ==> 0 <= final(r1)@ < old(r1)@ && final(r2)@ >= 0,
            progressed ==> final(r2)@ > bound@,
            cofactor_identity(final(c2)@, final(c1)@, final(r2)@, final(r1)@) == cofactor_identity(
                old(c2)@,
                old(c1)@,
                old(r2)@,
                old(r1)@,
            ),
    {
        let mut t1 = Mpz::zero();
        let mut t2 = Mpz::zero();
        // r = R2*B2 + R1*A2;  R1 = R2*B1 + R1*A1;  R2 = r
        let mut nr2 = Mpz::zero();
        t1.mul_si(r2, b2);
        t2.mul_si(r1, a2);
        nr2.add(&t1, &t2);
        let mut nr1 = Mpz::zero();
        t1.mul_si(r2, b1);
        t2.mul_si(r1, a1);
        nr1.add(&t1, &t2);
        let mut nc2 = Mpz::zero();
        t1.mul_si(c2, b2);
        t2.mul_si(c1, a2);
        nc2.add(&t1, &t2);
        let mut nc1 = Mpz::zero();
        t1.mul_si(c2, b1);
        t2.mul_si(c1, a1);
        nc1.add(&t1, &t2);
        proof {
            let (n, z) = (r2_0@, r1_0@);
            let k1 = choose|k: int| #[trigger] (n * k) == r1@ + c1@ * z;
            let k2 = choose|k: int| #[trigger] (n * k) == r2@ + c2@ * z;
            let (ia1, ia2, ib1, ib2) = (a1 as int, a2 as int, b1 as int, b2 as int);
            lemma_combine_tracks(n, z, k1, k2, r1@, c1@, r2@, c2@, ia2, ib2);
            lemma_combine_tracks(n, z, k1, k2, r1@, c1@, r2@, c2@, ia1, ib1);
            assert(r2@ * ib2 + r1@ * ia2 == ib2 * r2@ + ia2 * r1@) by (nonlinear_arith);
            assert(c2@ * ib2 + c1@ * ia2 == ib2 * c2@ + ia2 * c1@) by (nonlinear_arith);
            assert(r2@ * ib1 + r1@ * ia1 == ib1 * r2@ + ia1 * r1@) by (nonlinear_arith);
            assert(c2@ * ib1 + c1@ * ia1 == ib1 * c2@ + ia1 * c1@) by (nonlinear_arith);
            assert(n * (ib2 * k2 + ia2 * k1) == nr2@ + nc2@ * z);
            assert(n * (ib1 * k2 + ia1 * k1) == nr1@ + nc1@ * z);
            lemma_tracks_neg(n, z, nr1@, nc1@);
            lemma_tracks_neg(n, z, nr2@, nc2@);
        }
        // make sure R1 and R2 are positive
        if nr1.sgn() < 0 {
            nr1.neg_mut();
            nc1.neg_mut();
        }
        if nr2.sgn() < 0 {
            nr2.neg_mut();
            nc2.neg_mut();
        }
        let before = identity_value(c2, c1, r2, r1);
        let after = identity_value(&nc2, &nc1, &nr2, &nr1);
        if nr1.cmp_mpz(r1) < 0 && nr2.cmp_mpz(bound) > 0 && before.cmpabs(&after) == 0 {
            c2.set(&nc2);
            c1.set(&nc1);
            r2.set(&nr2);
            r1.set(&nr1);
            true
        } else {
            false
        }
    }
}

/// `p*(r2 + c2*z) + q*(r1 + c1*z)` regrouped.
proof fn lemma_combine_tracks(
    n: int,
    z: int,
    k1: int,
    k2: int,
    r1: int,
    c1: int,
    r2: int,
    c2: int,
    q: int,
    p: int,
)
    requires
        n * k1 == r1 + c1 * z,
        n * k2 == r2 + c2 * z,
    ensures
        n * (p * k2 + q * k1) == (p * r2 + q * r1) + (p * c2 + q * c1) * z,
{
    assert(n * (p * k2 + q * k1) == p * (n * k2) + q * (n * k1)) by (nonlinear_arith);
    assert(p * (r2 + c2 * z) + q * (r1 + c1 * z) == (p * r2 + q * r1) + (p * c2 + q * c1) * z)
        by (nonlinear_arith);
}

proof fn lemma_tracks_neg(n: int, z: int, r: int, c: int)
    requires
        tracks(n, z, r, c),
    ensures
        tracks(n, z, -r, -c),
{
    let k = choose|k: int| #[trigger] (n * k) == r + c * z;
    assert(n * (-k) == -r + (-c) * z) by (nonlinear_arith)
        requires
            n * k == r + c * z,
    ;
}

/// `c2*r1 - c1*r2`
fn identity_value(c2: &Mpz, c1: &Mpz, r2: &Mpz, r1: &Mpz) -> (r: Mpz)
    ensures
        r@ == c2@ * r1@ - c1@ * r2@,
{
    let mut v = Mpz::zero();
    v.mul(c2, r1);
    v.submul(c1, r2);
    v
}

/// The matrix `(a1, a2, b1, b2)` of Euclidean steps taken on the leading
/// words, as long as Lehmer's conditions hold; `None` where no step was
/// taken.
fn lehmer_matrix(rr2_0: i64, rr1_0: i64, bb: i64) -> (r: Option<(i64, i64, i64, i64)>) {
    let (mut rr2, mut rr1) = (rr2_0, rr1_0);
    let (mut a1, mut a2, mut b1, mut b2): (i64, i64, i64, i64) = (1, 0, 0, 1);
    let mut index: u64 = 0;
    if rr2 < 0 || rr1 < 0 {
        return None;
    }
    while rr1 != 0 && rr1 > bb
        invariant
            rr1 >= 0,
            rr2 >= 0,
        decreases rr1,
    {
        let qq: i64 = rr2 / rr1;
        let t1 = match qq.checked_mul(rr1) {
            Some(p) => rr2 - p,
            None => break,
        };
        assert(0 <= t1 < rr1) by (nonlinear_arith)
            requires
                rr1 > 0,
                rr2 >= 0,
                qq == rr2 / rr1,
                t1 == rr2 - qq * rr1,
        ;
        let t2 = match qq.checked_mul(a1) {
            Some(p) => match a2.checked_sub(p) {
                Some(d) => d,
                None => break,
            },
            None => break,
        };
        let t3 = match qq.checked_mul(b1) {
            Some(p) => match b2.checked_sub(p) {
                Some(d) => d,
                None => break,
            },
            None => break,
        };
        let stop = if index % 2 != 0 {
            match (0i64.checked_sub(t3), rr1.checked_sub(t1), t2.checked_sub(a1)) {
                (Some(n3), Some(d1), Some(d2)) => t1 < n3 || d1 < d2,
                _ => true,
            }
        } else {
            match (0i64.checked_sub(t2), rr2.checked_sub(t1), t3.checked_sub(b1)) {
                (Some(n2), Some(d1), Some(d2)) => t1 < n2 || d1 < d2,
                _ => true,
            }
        };
        if stop {
            break;
        }
        rr2 = rr1;
        rr1 = t1;
        a2 = a1;
        a1 = t2;
        b2 = b1;
        b1 = t3;
        if index == u64::MAX {
            break;
        }
        index = index + 1;
    }
    if index == 0 {
        None
    } else {
        Some((a1, a2, b1, b2))
    }
}

} // verus!
