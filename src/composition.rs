//! Why the generic composition always succeeds on two positive definite
//! forms of one discriminant `d == 1 (mod 4)`: both linear congruences that
//! it solves are solvable, both of its divisions are exact, and the form it
//! builds is a composite of the two.
use crate::classy::is_composite;
use crate::divisibility::{
    lemma_divides_antisym, lemma_divides_cancel, lemma_divides_intro, lemma_divides_lin,
    lemma_divides_scale, lemma_divides_trans, lemma_euclid, lemma_gcd, lemma_gcd_greatest,
    lemma_gcd_positive, lemma_unit_factor,
};
use crate::form::{QForm, disc};
use crate::mpz::{divides, floor_div, gcd};
use vstd::arithmetic::div_mod::{lemma_div_multiples_vanish, lemma_fundamental_div_mod, lemma_mod_multiples_basic};
use vstd::prelude::*;

verus! {

/// `a / w` is exact where `w` divides `a`.
pub proof fn lemma_exact_div(a: int, w: int)
    requires
        w > 0,
        divides(w, a),
    ensures
        floor_div(a, w) * w == a,
{
    let k = choose|k: int| #[trigger] (w * k) == a;
    lemma_div_multiples_vanish(k, w);
    assert(k * w == w * k) by (nonlinear_arith);
}

pub proof fn lemma_mod_of_divides(g: int, b: int)
    requires
        g > 0,
        divides(g, b),
    ensures
        b % g == 0,
{
    let k = choose|k: int| #[trigger] (g * k) == b;
    lemma_mod_multiples_basic(k, g);
    assert(k * g == g * k) by (nonlinear_arith);
}

proof fn lemma_b_odd(b: int, a: int, c: int, d: int)
    requires
        b * b - 4 * a * c == d,
        d % 4 == 1,
    ensures
        b % 2 == 1,
{
    if b % 2 == 0 {
        lemma_fundamental_div_mod(b, 2);
        let q = b / 2;
        assert(d == (q * q - a * c) * 4) by (nonlinear_arith)
            requires
                b == 2 * q,
                b * b - 4 * a * c == d,
        ;
        lemma_mod_multiples_basic(q * q - a * c, 4);
    }
}

/// The quantities of the composition, their exactness, and the first
/// congruence `t*u*mu == h*u + s*c1 (mod s*t)` being solvable.
pub proof fn lemma_first_congruence(x: QForm, y: QForm, d: int)
    requires
        disc(x) == d,
        disc(y) == d,
        d % 4 == 1,
        x.a > 0,
        y.a > 0,
    ensures
        ({
            let g = floor_div(x.b + y.b, 2);
            let h = floor_div(y.b - x.b, 2);
            let w = gcd(gcd(x.a, y.a), g);
            let s = floor_div(x.a, w);
            let t = floor_div(y.a, w);
            let u = floor_div(g, w);
            let e = gcd(u, s);
            &&& w > 0
            &&& s * w == x.a
            &&& t * w == y.a
            &&& u * w == g
            &&& g + h == y.b
            &&& g - h == x.b
            &&& s > 0
            &&& t > 0
            &&& h * u + s * x.c == t * y.c
            &&& e > 0
            &&& divides(e, u)
            &&& divides(e, s)
            &&& gcd(e, t) == 1
            &&& gcd(t * u, s * t) == t * e
            &&& t * e > 0
            &&& (h * u + s * x.c) % gcd(t * u, s * t) == 0
        }),
{
    let g = floor_div(x.b + y.b, 2);
    let h = floor_div(y.b - x.b, 2);
    lemma_b_odd(x.b, x.a, x.c, d);
    lemma_b_odd(y.b, y.a, y.c, d);
    lemma_fundamental_div_mod(x.b + y.b, 2);
    lemma_fundamental_div_mod(y.b - x.b, 2);
    assert(g * 2 == x.b + y.b);
    assert(h * 2 == y.b - x.b);
    let g12 = gcd(x.a, y.a);
    lemma_gcd(x.a, y.a);
    lemma_gcd_positive(x.a, y.a);
    let w = gcd(g12, g);
    lemma_gcd(g12, g);
    lemma_gcd_positive(g12, g);
    lemma_divides_trans(w, g12, x.a);
    lemma_divides_trans(w, g12, y.a);
    lemma_exact_div(x.a, w);
    lemma_exact_div(y.a, w);
    lemma_exact_div(g, w);
    let s = floor_div(x.a, w);
    let t = floor_div(y.a, w);
    let u = floor_div(g, w);
    assert(s > 0 && t > 0) by (nonlinear_arith)
        requires
            s * w == x.a,
            t * w == y.a,
            w > 0,
            x.a > 0,
            y.a > 0,
    ;
    // the two discriminants agree: g*h == a2*c2 - a1*c1
    assert(g * h == y.a * y.c - x.a * x.c) by (nonlinear_arith)
        requires
            x.b * x.b - 4 * x.a * x.c == y.b * y.b - 4 * y.a * y.c,
            g * 2 == x.b + y.b,
            h * 2 == y.b - x.b,
    ;
    assert(w * (h * u) == g * h) by (nonlinear_arith)
        requires
            u * w == g,
    ;
    assert(w * (s * x.c) == x.a * x.c) by (nonlinear_arith)
        requires
            s * w == x.a,
    ;
    assert(w * (t * y.c) == y.a * y.c) by (nonlinear_arith)
        requires
            t * w == y.a,
    ;
    assert(w * (h * u + s * x.c - t * y.c) == w * (h * u) + w * (s * x.c) - w * (t * y.c))
        by (nonlinear_arith);
    assert(h * u + s * x.c == t * y.c) by (nonlinear_arith)
        requires
            w * (h * u + s * x.c - t * y.c) == 0,
            w > 0,
    ;
    // e = gcd(u, s) and gcd(e, t) == 1
    let e = gcd(u, s);
    let (eu, es) = lemma_gcd(u, s);
    lemma_gcd_positive(s, u);
    lemma_gcd_positive_sym(u, s);
    let f = gcd(e, t);
    lemma_gcd(e, t);
    lemma_divides_trans(f, e, u);
    lemma_divides_trans(f, e, s);
    lemma_divides_scale(f, s, w);
    lemma_divides_scale(f, t, w);
    lemma_divides_scale(f, u, w);
    lemma_gcd_greatest(x.a, y.a, f * w);
    lemma_gcd_greatest(g12, g, f * w);
    lemma_unit_factor(f, w);
    // gcd(t*u, s*t) == t*e
    let g1 = gcd(t * u, s * t);
    let (gx, gy) = lemma_gcd(t * u, s * t);
    assert(s * t > 0) by (nonlinear_arith)
        requires
            s > 0,
            t > 0,
    ;
    lemma_gcd_positive_sym(t * u, s * t);
    lemma_divides_scale(e, u, t);
    lemma_divides_scale(e, s, t);
    assert(e * t == t * e && u * t == t * u) by (nonlinear_arith);
    lemma_gcd_greatest(t * u, s * t, t * e);
    assert(t * e == (t * u) * eu + (s * t) * es) by (nonlinear_arith)
        requires
            u * eu + s * es == e,
    ;
    lemma_divides_lin(g1, t * u, s * t, eu, es);
    assert(t * e > 0) by (nonlinear_arith)
        requires
            t > 0,
            e > 0,
    ;
    lemma_divides_antisym(g1, t * e);
    // e divides c2, so t*e divides t*c2 == h*u + s*c1
    lemma_divides_lin(e, u, s, h, x.c);
    assert(u * h + s * x.c == t * y.c) by (nonlinear_arith)
        requires
            h * u + s * x.c == t * y.c,
    ;
    lemma_euclid(e, t, y.c);
    lemma_divides_scale(e, y.c, t);
    assert(y.c * t == t * y.c) by (nonlinear_arith);
    lemma_mod_of_divides(g1, h * u + s * x.c);
}

/// The second congruence `t*v*lambda == h - t*mu (mod s)` is solvable,
/// where `mu` solves the first and `v = s*t / gcd(t*u, s*t)`.
pub proof fn lemma_second_congruence(x: QForm, y: QForm, d: int, mu: int, v: int)
    requires
        disc(x) == d,
        disc(y) == d,
        d % 4 == 1,
        x.a > 0,
        y.a > 0,
        ({
            let g = floor_div(x.b + y.b, 2);
            let h = floor_div(y.b - x.b, 2);
            let w = gcd(gcd(x.a, y.a), g);
            let s = floor_div(x.a, w);
            let t = floor_div(y.a, w);
            let u = floor_div(g, w);
            &&& divides(s * t, (t * u) * mu - (h * u + s * x.c))
            &&& v == floor_div(s * t, gcd(t * u, s * t))
        }),
    ensures
        ({
            let g = floor_div(x.b + y.b, 2);
            let h = floor_div(y.b - x.b, 2);
            let w = gcd(gcd(x.a, y.a), g);
            let s = floor_div(x.a, w);
            let t = floor_div(y.a, w);
            let u = floor_div(g, w);
            &&& gcd(t * v, s) != 0
            &&& (h - t * mu) % gcd(t * v, s) == 0
            &&& divides(s * t, (t * u) * v)
        }),
{
    lemma_first_congruence(x, y, d);
    let g = floor_div(x.b + y.b, 2);
    let h = floor_div(y.b - x.b, 2);
    let w = gcd(gcd(x.a, y.a), g);
    let s = floor_div(x.a, w);
    let t = floor_div(y.a, w);
    let u = floor_div(g, w);
    let e = gcd(u, s);
    // s = e*s2, u = e*u2, v = s2
    lemma_exact_div(s, e);
    lemma_exact_div(u, e);
    let s2 = floor_div(s, e);
    let u2 = floor_div(u, e);
    assert(s * t == (t * e) * s2) by (nonlinear_arith)
        requires
            s2 * e == s,
    ;
    assert(t * e > 0) by (nonlinear_arith)
        requires
            t > 0,
            e > 0,
    ;
    lemma_div_multiples_vanish(s2, t * e);
    assert(v == s2);
    assert(s2 > 0) by (nonlinear_arith)
        requires
            s2 * e == s,
            s > 0,
            e > 0,
    ;
    // s divides u*mu - c2
    assert((t * u) * mu - (h * u + s * x.c) == (u * mu - y.c) * t) by (nonlinear_arith)
        requires
            h * u + s * x.c == t * y.c,
    ;
    assert(s * t == s * t);
    lemma_divides_cancel(s, u * mu - y.c, t);
    // s divides u*(h - t*mu)
    let k = choose|k: int| #[trigger] (s * k) == u * mu - y.c;
    assert(s * (-t * k - x.c) == -(t * (s * k)) - s * x.c) by (nonlinear_arith);
    assert(t * (s * k) == t * (u * mu) - t * y.c) by (nonlinear_arith)
        requires
            s * k == u * mu - y.c,
    ;
    assert(u * (h - t * mu) == h * u - t * (u * mu)) by (nonlinear_arith);
    assert(s * (-t * k - x.c) == u * (h - t * mu));
    lemma_divides_intro(s, u * (h - t * mu), -t * k - x.c);
    assert(s2 * e == s && u * (h - t * mu) == (u2 * (h - t * mu)) * e) by (nonlinear_arith)
        requires
            s2 * e == s,
            u2 * e == u,
    ;
    lemma_divides_cancel(s2, u2 * (h - t * mu), e);
    // gcd(s2, u2) == 1
    let f = gcd(s2, u2);
    lemma_gcd(s2, u2);
    lemma_divides_scale(f, s2, e);
    lemma_divides_scale(f, u2, e);
    lemma_gcd_greatest(u, s, f * e);
    lemma_unit_factor(f, e);
    lemma_euclid(s2, u2, h - t * mu);
    // gcd(t*s2, s) divides s2, hence h - t*mu
    let g2 = gcd(t * v, s);
    lemma_gcd(t * v, s);
    lemma_gcd_positive_sym(t * v, s);
    let (ex, ty) = lemma_gcd(e, t);
    assert(s2 == s * ex + (t * v) * ty) by (nonlinear_arith)
        requires
            e * ex + t * ty == 1,
            s2 * e == s,
            v == s2,
    ;
    lemma_divides_lin(g2, s, t * v, ex, ty);
    lemma_divides_trans(g2, s2, h - t * mu);
    lemma_mod_of_divides(g2, h - t * mu);
    // s*t divides t*u*v
    assert((t * u) * v == (s * t) * u2) by (nonlinear_arith)
        requires
            v == s2,
            s2 * e == s,
            u2 * e == u,
    ;
    lemma_divides_intro(s * t, (t * u) * v, u2);
}

/// With `mu`, `lambda` solving the two congruences, `k = mu + v*lambda`,
/// the divisions `l = (k*t - h)/s` and `m = (t*u*k - h*u - c1*s)/(s*t)` are
/// exact and `(s*t, w*u - k*t - l*s, k*l - w*m)` is a composite of `x` and
/// `y`.
pub proof fn lemma_composite(x: QForm, y: QForm, d: int, mu: int, v: int, lambda: int)
    requires
        disc(x) == d,
        disc(y) == d,
        d % 4 == 1,
        x.a > 0,
        y.a > 0,
        ({
            let g = floor_div(x.b + y.b, 2);
            let h = floor_div(y.b - x.b, 2);
            let w = gcd(gcd(x.a, y.a), g);
            let s = floor_div(x.a, w);
            let t = floor_div(y.a, w);
            let u = floor_div(g, w);
            &&& divides(s * t, (t * u) * mu - (h * u + s * x.c))
            &&& v == floor_div(s * t, gcd(t * u, s * t))
            &&& divides(s, (t * v) * lambda - (h - t * mu))
        }),
    ensures
        ({
            let g = floor_div(x.b + y.b, 2);
            let h = floor_div(y.b - x.b, 2);
            let w = gcd(gcd(x.a, y.a), g);
            let s = floor_div(x.a, w);
            let t = floor_div(y.a, w);
            let u = floor_div(g, w);
            let k = mu + v * lambda;
            let l = floor_div(k * t - h, s);
            let m = floor_div((t * u) * k - h * u - x.c * s, s * t);
            let f = QForm { a: s * t, b: w * u - k * t - l * s, c: k * l - w * m };
            &&& s * t > 0
            &&& is_composite(x, y, f)
            &&& disc(f) == d
            &&& f.a > 0
        }),
{
    lemma_first_congruence(x, y, d);
    lemma_second_congruence(x, y, d, mu, v);
    let g = floor_div(x.b + y.b, 2);
    let h = floor_div(y.b - x.b, 2);
    let w = gcd(gcd(x.a, y.a), g);
    let s = floor_div(x.a, w);
    let t = floor_div(y.a, w);
    let u = floor_div(g, w);
    let k = mu + v * lambda;
    // l is exact
    assert((t * v) * lambda - (h - t * mu) == k * t - h) by (nonlinear_arith)
        requires
            k == mu + v * lambda,
    ;
    lemma_exact_div(k * t - h, s);
    let l = floor_div(k * t - h, s);
    // m is exact
    assert(s * t > 0) by (nonlinear_arith)
        requires
            s > 0,
            t > 0,
    ;
    lemma_divides_lin(s * t, (t * u) * mu - (h * u + s * x.c), (t * u) * v, 1, lambda);
    assert(((t * u) * mu - (h * u + s * x.c)) * 1 + ((t * u) * v) * lambda == (t * u) * k - h * u
        - x.c * s) by (nonlinear_arith)
        requires
            k == mu + v * lambda,
    ;
    lemma_exact_div((t * u) * k - h * u - x.c * s, s * t);
    let m = floor_div((t * u) * k - h * u - x.c * s, s * t);
    let f = QForm { a: s * t, b: w * u - k * t - l * s, c: k * l - w * m };
    // the leading coefficient
    assert(f.a * (w * w) == x.a * y.a) by (nonlinear_arith)
        requires
            f.a == s * t,
            s * w == x.a,
            t * w == y.a,
    ;
    assert(f.a > 0);
    // the two congruences on b
    assert(f.b == x.b - 2 * (l * s)) by (nonlinear_arith)
        requires
            f.b == w * u - k * t - l * s,
            u * w == g,
            l * s == k * t - h,
            g - h == x.b,
    ;
    assert(f.b == y.b - 2 * (k * t)) by (nonlinear_arith)
        requires
            f.b == w * u - k * t - l * s,
            u * w == g,
            l * s == k * t - h,
            g + h == y.b,
    ;
    assert((2 * x.a) * (-l) == w * (f.b - x.b)) by (nonlinear_arith)
        requires
            f.b == x.b - 2 * (l * s),
            s * w == x.a,
    ;
    assert((2 * y.a) * (-k) == w * (f.b - y.b)) by (nonlinear_arith)
        requires
            f.b == y.b - 2 * (k * t),
            t * w == y.a,
    ;
    lemma_divides_intro(2 * x.a, w * (f.b - x.b), -l);
    lemma_divides_intro(2 * y.a, w * (f.b - y.b), -k);
    // the discriminant
    let kt = k * t;
    assert(4 * f.a * f.c == 4 * kt * (l * s) - 4 * w * (m * (s * t))) by (nonlinear_arith)
        requires
            f.a == s * t,
            f.c == k * l - w * m,
            kt == k * t,
    ;
    assert(w * ((t * u) * k) == g * kt) by (nonlinear_arith)
        requires
            u * w == g,
            kt == k * t,
    ;
    assert(w * (h * u) == g * h) by (nonlinear_arith)
        requires
            u * w == g,
    ;
    assert(w * (x.c * s) == x.a * x.c) by (nonlinear_arith)
        requires
            s * w == x.a,
    ;
    assert(w * ((t * u) * k - h * u - x.c * s) == w * ((t * u) * k) - w * (h * u) - w * (x.c * s))
        by (nonlinear_arith);
    assert(4 * w * (m * (s * t)) == 4 * (w * (m * (s * t)))) by (nonlinear_arith);
    assert(4 * w * (m * (s * t)) == 4 * (g * kt) - 4 * (g * h) - 4 * (x.a * x.c));
    assert(4 * f.a * f.c == 4 * kt * (kt - h) - 4 * g * kt + 4 * g * h + 4 * x.a * x.c)
        by (nonlinear_arith)
        requires
            4 * f.a * f.c == 4 * kt * (l * s) - 4 * w * (m * (s * t)),
            4 * w * (m * (s * t)) == 4 * (g * kt) - 4 * (g * h) - 4 * (x.a * x.c),
            l * s == kt - h,
    ;
    assert(f.b * f.b - 4 * f.a * f.c == x.b * x.b - 4 * x.a * x.c) by (nonlinear_arith)
        requires
            f.b == y.b - 2 * kt,
            4 * f.a * f.c == 4 * kt * (kt - h) - 4 * g * kt + 4 * g * h + 4 * x.a * x.c,
            g + h == y.b,
            g - h == x.b,
    ;
    assert(is_composite(x, y, f));
}

/// `gcd(a, b) > 0` where `b != 0`.
proof fn lemma_gcd_positive_sym(a: int, b: int)
    requires
        b != 0,
    ensures
        gcd(a, b) > 0,
{
    lemma_gcd(a, b);
    if gcd(a, b) == 0 {
        let k = choose|k: int| #[trigger] (gcd(a, b) * k) == b;
        assert(0 * k == 0) by (nonlinear_arith);
    }
}

} // verus!
