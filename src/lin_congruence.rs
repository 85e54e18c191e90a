//! Linear congruences `a*mu == b (mod m)`.
use crate::mpz::{Mpz, divides, floor_div, gcd};
use crate::divisibility::lemma_gcd;
use vstd::arithmetic::div_mod::{lemma_div_multiples_vanish, lemma_fundamental_div_mod};
use vstd::prelude::*;

verus! {

pub struct LinCongruenceCtx {}

impl LinCongruenceCtx {
    pub fn new() -> (r: LinCongruenceCtx) {
        LinCongruenceCtx {  }
    }

    /// Solves `a*mu == b (mod m)` for the least non-negative `mu`, with
    /// `v = m / gcd(a, m)` the period of the solutions: `0 <= mu < v`.
    /// `false` where `gcd(a, m)` does not divide `b`.
    pub fn solve_linear_congruence(
        &self,
        mu: &mut Mpz,
        v: &mut Mpz,
        a: &Mpz,
        b: &Mpz,
        m: &Mpz,
    ) -> (solved: bool)
        requires
            m@ > 0,
        ensures
            solved <==> gcd(a@, m@) != 0 && b@ % gcd(a@, m@) == 0,
            solved ==> divides(m@, a@ * final(mu)@ - b@),
            solved ==> 0 <= final(mu)@ < final(v)@,
            solved ==> final(v)@ == floor_div(m@, gcd(a@, m@)),
            solved ==> final(v)@ * gcd(a@, m@) == m@,
    {
        let mut g = Mpz::zero();
        let mut d = Mpz::zero();
        let mut e = Mpz::zero();
        g.gcdext(&mut d, &mut e, a, m);
        if g.is_zero() {
            return false;
        }
        let mut q = Mpz::zero();
        let mut r = Mpz::zero();
        q.fdiv_qr(&mut r, b, &g);
        proof {
            lemma_fundamental_div_mod(b@, g@);
            assert(g@ * (b@ / g@) == (b@ / g@) * g@) by (nonlinear_arith);
        }
        if !r.is_zero() {
            return false;
        }
        v.fdiv_q(m, &g);
        proof {
            lemma_gcd(a@, m@);
            let km = choose|k: int| #[trigger] (g@ * k) == m@;
            lemma_div_multiples_vanish(km, g@);
            assert(v@ == km);
            assert(v@ > 0) by (nonlinear_arith)
                requires
                    g@ * v@ == m@,
                    m@ > 0,
                    g@ > 0,
            ;
        }
        mu.mul(&q, &d);
        mu.fdiv_r_mut(v);
        proof {
            let (aa, bb, mm, gg, dd, ee, qq, vv) = (a@, b@, m@, g@, d@, e@, q@, v@);
            let t = floor_div(qq * dd, vv);
            let ka = choose|k: int| #[trigger] (gg * k) == aa;
            assert(bb == gg * qq) by (nonlinear_arith)
                requires
                    gg > 0,
                    qq == bb / gg,
                    bb - gg * qq == 0,
            ;
            assert(aa * vv == ka * mm) by (nonlinear_arith)
                requires
                    gg * ka == aa,
                    gg * vv == mm,
            ;
            assert(aa * mu@ == qq * (aa * dd) - (aa * vv) * t) by (nonlinear_arith)
                requires
                    mu@ == qq * dd - vv * t,
            ;
            assert(qq * (gg - mm * ee) - (ka * mm) * t - gg * qq == mm * (-(qq * ee + ka * t)))
                by (nonlinear_arith);
            assert(aa * mu@ - bb == mm * (-(qq * ee + ka * t)));
            assert(0 <= mu@ < vv) by (nonlinear_arith)
                requires
                    vv > 0,
                    mu@ == qq * dd - vv * t,
                    t == (qq * dd) / vv,
            ;
            let k = -(qq * ee + ka * t);
            assert(mm * k == aa * mu@ - bb);
            assert(vv * gg == gg * vv) by (nonlinear_arith);
        }
        true
    }
}

} // verus!
