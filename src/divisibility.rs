//! Divisibility and the greatest common divisor: Bezout's identity and the
//! facts that follow from it.
use crate::mpz::{abs, divides, gcd, gcd_nat};
use vstd::arithmetic::div_mod::lemma_fundamental_div_mod;
use vstd::prelude::*;

verus! {

pub proof fn lemma_divides_intro(d: int, a: int, k: int)
    requires
        d * k == a,
    ensures
        divides(d, a),
{
}

/// A common divisor divides every integer combination.
pub proof fn lemma_divides_lin(d: int, a: int, b: int, x: int, y: int)
    requires
        divides(d, a),
        divides(d, b),
    ensures
        divides(d, a * x + b * y),
{
    let ka = choose|k: int| #[trigger] (d * k) == a;
    let kb = choose|k: int| #[trigger] (d * k) == b;
    assert(d * (ka * x + kb * y) == a * x + b * y) by (nonlinear_arith)
        requires
            d * ka == a,
            d * kb == b,
    ;
    lemma_divides_intro(d, a * x + b * y, ka * x + kb * y);
}

pub proof fn lemma_divides_trans(d: int, e: int, a: int)
    requires
        divides(d, e),
        divides(e, a),
    ensures
        divides(d, a),
{
    let k1 = choose|k: int| #[trigger] (d * k) == e;
    let k2 = choose|k: int| #[trigger] (e * k) == a;
    assert(d * (k1 * k2) == a) by (nonlinear_arith)
        requires
            d * k1 == e,
            e * k2 == a,
    ;
    lemma_divides_intro(d, a, k1 * k2);
}

/// `d | a` gives `d*c | a*c`.
pub proof fn lemma_divides_scale(d: int, a: int, c: int)
    requires
        divides(d, a),
    ensures
        divides(d * c, a * c),
{
    let k = choose|k: int| #[trigger] (d * k) == a;
    assert((d * c) * k == a * c) by (nonlinear_arith)
        requires
            d * k == a,
    ;
    lemma_divides_intro(d * c, a * c, k);
}

/// `d*c | a*c` with `c != 0` gives `d | a`.
pub proof fn lemma_divides_cancel(d: int, a: int, c: int)
    requires
        divides(d * c, a * c),
        c != 0,
    ensures
        divides(d, a),
{
    let k = choose|k: int| #[trigger] ((d * c) * k) == a * c;
    assert(d * k == a) by (nonlinear_arith)
        requires
            (d * c) * k == a * c,
            c != 0,
    ;
    lemma_divides_intro(d, a, k);
}

proof fn lemma_gcd_nat(a: nat, b: nat) -> (xy: (int, int))
    ensures
        divides(gcd_nat(a, b) as int, a as int),
        divides(gcd_nat(a, b) as int, b as int),
        (a as int) * xy.0 + (b as int) * xy.1 == gcd_nat(a, b) as int,
    decreases b,
{
    if b == 0 {
        lemma_divides_intro(a as int, a as int, 1);
        lemma_divides_intro(a as int, 0, 0);
        (1, 0)
    } else {
        let r = a % b;
        let q: int = (a / b) as int;
        let (x1, y1) = lemma_gcd_nat(b, r);
        let g = gcd_nat(a, b) as int;
        lemma_fundamental_div_mod(a as int, b as int);
        assert(a as int == (b as int) * q + r as int);
        lemma_divides_lin(g, b as int, r as int, q, 1);
        assert((b as int) * q + (r as int) * 1 == a as int);
        assert((a as int) * y1 + (b as int) * (x1 - q * y1) == g) by (nonlinear_arith)
            requires
                (b as int) * x1 + (r as int) * y1 == g,
                a as int == (b as int) * q + r as int,
        ;
        (y1, x1 - q * y1)
    }
}

/// `gcd(a, b)` divides both and is an integer combination of them.
pub proof fn lemma_gcd(a: int, b: int) -> (xy: (int, int))
    ensures
        gcd(a, b) >= 0,
        divides(gcd(a, b), a),
        divides(gcd(a, b), b),
        a * xy.0 + b * xy.1 == gcd(a, b),
{
    let (x, y) = lemma_gcd_nat(abs(a) as nat, abs(b) as nat);
    let g = gcd(a, b);
    let x2 = if a < 0 {
        -x
    } else {
        x
    };
    let y2 = if b < 0 {
        -y
    } else {
        y
    };
    assert(a * x2 == abs(a) * x) by (nonlinear_arith)
        requires
            x2 == (if a < 0 {
                -x
            } else {
                x
            }),
    ;
    assert(b * y2 == abs(b) * y) by (nonlinear_arith)
        requires
            y2 == (if b < 0 {
                -y
            } else {
                y
            }),
    ;
    let ka = choose|k: int| #[trigger] (g * k) == abs(a);
    let kb = choose|k: int| #[trigger] (g * k) == abs(b);
    if a < 0 {
        assert(g * (-ka) == a) by (nonlinear_arith)
            requires
                g * ka == -a,
        ;
        lemma_divides_intro(g, a, -ka);
    }
    if b < 0 {
        assert(g * (-kb) == b) by (nonlinear_arith)
            requires
                g * kb == -b,
        ;
        lemma_divides_intro(g, b, -kb);
    }
    (x2, y2)
}

/// Every common divisor divides the gcd.
pub proof fn lemma_gcd_greatest(a: int, b: int, e: int)
    requires
        divides(e, a),
        divides(e, b),
    ensures
        divides(e, gcd(a, b)),
{
    let (x, y) = lemma_gcd(a, b);
    lemma_divides_lin(e, a, b, x, y);
}

/// `gcd(a, b) > 0` where `a != 0`.
pub proof fn lemma_gcd_positive(a: int, b: int)
    requires
        a != 0,
    ensures
        gcd(a, b) > 0,
{
    lemma_gcd(a, b);
    if gcd(a, b) == 0 {
        let k = choose|k: int| #[trigger] (gcd(a, b) * k) == a;
        assert(0 * k == 0) by (nonlinear_arith);
    }
}

/// Two non-negative numbers that divide each other are equal.
pub proof fn lemma_divides_antisym(a: int, b: int)
    requires
        a >= 0,
        b > 0,
        divides(a, b),
        divides(b, a),
    ensures
        a == b,
{
    let k1 = choose|k: int| #[trigger] (a * k) == b;
    let k2 = choose|k: int| #[trigger] (b * k) == a;
    assert(a == b) by (nonlinear_arith)
        requires
            a * k1 == b,
            b * k2 == a,
            a >= 0,
            b > 0,
    ;
}

/// Euclid's lemma: `d | t*c` with `gcd(d, t) == 1` gives `d | c`.
pub proof fn lemma_euclid(d: int, t: int, c: int)
    requires
        divides(d, t * c),
        gcd(d, t) == 1,
    ensures
        divides(d, c),
{
    let (x, y) = lemma_gcd(d, t);
    lemma_divides_intro(d, d, 1);
    lemma_divides_lin(d, d, t * c, c * x, y);
    assert(d * (c * x) + (t * c) * y == c) by (nonlinear_arith)
        requires
            d * x + t * y == 1,
    ;
}

/// A divisor of a positive number with a divisor of its own that is
/// the whole number times a factor: `f*w | w` with `w > 0`, `f >= 0` gives
/// `f == 1`.
pub proof fn lemma_unit_factor(f: int, w: int)
    requires
        divides(f * w, w),
        w > 0,
        f >= 0,
    ensures
        f == 1,
{
    let k = choose|k: int| #[trigger] ((f * w) * k) == w;
    assert(f == 1) by (nonlinear_arith)
        requires
            (f * w) * k == w,
            w > 0,
            f >= 0,
    ;
}

} // verus!
