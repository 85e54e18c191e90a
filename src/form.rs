//! The mathematical model of binary quadratic forms `a*x^2 + b*x*y + c*y^2`.
use vstd::prelude::*;

verus! {

/// A binary quadratic form with integer coefficients.
pub struct QForm {
    pub a: int,
    pub b: int,
    pub c: int,
}

pub open spec fn disc(f: QForm) -> int {
    f.b * f.b - 4 * f.a * f.c
}

/// `-a < b <= a`
pub open spec fn is_normal(f: QForm) -> bool {
    -f.a < f.b && f.b <= f.a
}

/// The canonical representative of a class of positive definite forms:
/// `|b| <= a <= c`, with `b >= 0` where `|b| == a` or `a == c`.
pub open spec fn is_reduced(f: QForm) -> bool {
    &&& is_normal(f)
    &&& f.a <= f.c
    &&& (f.a == f.c ==> f.b >= 0)
}

/// A positive definite form of discriminant `d`.
pub open spec fn is_valid(f: QForm, d: int) -> bool {
    disc(f) == d && f.a > 0 && d < 0
}

/// The form `f(p*x + q*y, r*x + s*y)`.
pub open spec fn transform(f: QForm, p: int, q: int, r: int, s: int) -> QForm {
    QForm {
        a: f.a * (p * p) + f.b * (p * r) + f.c * (r * r),
        b: f.a * (2 * p * q) + f.b * (p * s + q * r) + f.c * (2 * r * s),
        c: f.a * (q * q) + f.b * (q * s) + f.c * (s * s),
    }
}

/// `g` arises from `f` by one substitution of determinant 1.
pub open spec fn substitutes_to(f: QForm, g: QForm) -> bool {
    exists|p: int, q: int, r: int, s: int|
        p * s - q * r == 1 && #[trigger] transform(f, p, q, r, s) == g
}

pub open spec fn is_chain(s: Seq<QForm>) -> bool {
    forall|i: int| 0 <= i < s.len() - 1 ==> substitutes_to(#[trigger] s[i], s[i + 1])
}

/// Proper equivalence: `g` is reached from `f` by substitutions of
/// determinant 1, so the two forms stand for the same class.
pub open spec fn equivalent(f: QForm, g: QForm) -> bool {
    exists|s: Seq<QForm>| s.len() >= 1 && s[0] == f && s.last() == g && #[trigger] is_chain(s)
}

pub proof fn lemma_equivalent_refl(f: QForm)
    ensures
        equivalent(f, f),
{
    let s = seq![f];
    assert(is_chain(s));
}

/// One more substitution of determinant 1 keeps the equivalence.
pub proof fn lemma_equivalent_step(f: QForm, g: QForm, p: int, q: int, r: int, s: int)
    requires
        equivalent(f, g),
        p * s - q * r == 1,
    ensures
        equivalent(f, transform(g, p, q, r, s)),
{
    let h = transform(g, p, q, r, s);
    let c = choose|c: Seq<QForm>| c.len() >= 1 && c[0] == f && c.last() == g && #[trigger] is_chain(c);
    let c2 = c.push(h);
    assert(substitutes_to(g, h));
    assert forall|i: int| 0 <= i < c2.len() - 1 implies substitutes_to(#[trigger] c2[i], c2[i + 1]) by {
        if i < c.len() - 1 {
            assert(c2[i] == c[i] && c2[i + 1] == c[i + 1]);
        } else {
            assert(c2[i] == g && c2[i + 1] == h);
        }
    }
    assert(is_chain(c2));
    assert(c2[0] == f && c2.last() == h);
}

/// Proper equivalence is transitive.
pub proof fn lemma_equivalent_trans(f: QForm, g: QForm, h: QForm)
    requires
        equivalent(f, g),
        equivalent(g, h),
    ensures
        equivalent(f, h),
{
    let c1 = choose|c: Seq<QForm>| c.len() >= 1 && c[0] == f && c.last() == g && #[trigger] is_chain(c);
    let c2 = choose|c: Seq<QForm>| c.len() >= 1 && c[0] == g && c.last() == h && #[trigger] is_chain(c);
    let c = c1 + c2.drop_first();
    assert forall|i: int| 0 <= i < c.len() - 1 implies substitutes_to(#[trigger] c[i], c[i + 1]) by {
        if i < c1.len() - 1 {
            assert(c[i] == c1[i] && c[i + 1] == c1[i + 1]);
        } else if i == c1.len() - 1 {
            assert(c[i] == g);
            assert(c[i + 1] == c2[1]);
            assert(substitutes_to(c2[0], c2[1]));
        } else {
            let j = i - c1.len() + 1;
            assert(c[i] == c2[j] && c[i + 1] == c2[j + 1]);
        }
    }
    if c2.len() == 1 {
        assert(c =~= c1);
    }
    assert(is_chain(c));
}

/// The normalization step and the Gauss step are substitutions.
pub proof fn lemma_steps_are_substitutions(f: QForm, r: int, delta: int)
    ensures
        shift_form(f, r) == transform(f, 1, r, 0, 1),
        gauss_step(f, delta) == transform(f, 0, -1, 1, delta),
        (QForm { a: f.c, b: -f.b, c: f.a }) == transform(f, 0, -1, 1, 0),
{
    let (a, b, c) = (f.a, f.b, f.c);
    assert(a * (1 * 1) + b * (1 * 0) + c * (0 * 0) == a) by (nonlinear_arith);
    assert(a * (2 * 1 * r) + b * (1 * 1 + r * 0) + c * (2 * 0 * 1) == b + 2 * r * a)
        by (nonlinear_arith);
    assert(a * (r * r) + b * (r * 1) + c * (1 * 1) == c + r * r * a + r * b) by (nonlinear_arith);
    assert(a * (0 * 0) + b * (0 * 1) + c * (1 * 1) == c) by (nonlinear_arith);
    assert(a * (2 * 0 * -1) + b * (0 * delta + -1 * 1) + c * (2 * 1 * delta) == -b + 2 * c * delta)
        by (nonlinear_arith);
    assert(a * (-1 * -1) + b * (-1 * delta) + c * (delta * delta) == a - b * delta + c * delta
        * delta) by (nonlinear_arith);
    assert(a * (2 * 0 * -1) + b * (0 * 0 + -1 * 1) + c * (2 * 1 * 0) == -b) by (nonlinear_arith);
    assert(a * (-1 * -1) + b * (-1 * 0) + c * (0 * 0) == a) by (nonlinear_arith);
}

/// The normalization step `f(x + r*y, y)`: `a` stays, `b` moves by `2*r*a`.
pub open spec fn shift_form(f: QForm, r: int) -> QForm {
    QForm { a: f.a, b: f.b + 2 * r * f.a, c: f.c + r * r * f.a + r * f.b }
}

/// One step of Gauss reduction, `f(-y, x + delta*y)`: `c` becomes the new `a`.
pub open spec fn gauss_step(f: QForm, delta: int) -> QForm {
    QForm { a: f.c, b: -f.b + 2 * f.c * delta, c: f.a - f.b * delta + f.c * delta * delta }
}

pub proof fn lemma_shift_form_disc(f: QForm, r: int)
    ensures
        disc(shift_form(f, r)) == disc(f),
{
    let (a, b, c) = (f.a, f.b, f.c);
    assert((b + 2 * r * a) * (b + 2 * r * a) - 4 * a * (c + r * r * a + r * b) == b * b - 4 * a * c)
        by (nonlinear_arith);
}

pub proof fn lemma_gauss_step_disc(f: QForm, delta: int)
    ensures
        disc(gauss_step(f, delta)) == disc(f),
{
    let (a, b, c) = (f.a, f.b, f.c);
    assert((-b + 2 * c * delta) * (-b + 2 * c * delta) - 4 * c * (a - b * delta + c * delta * delta)
        == b * b - 4 * a * c) by (nonlinear_arith);
}

/// A positive definite form has `c > 0` as well.
pub proof fn lemma_c_positive(f: QForm)
    requires
        f.a > 0,
        disc(f) < 0,
    ensures
        f.c > 0,
{
    assert(f.b * f.b >= 0) by (nonlinear_arith);
    assert(f.c > 0) by (nonlinear_arith)
        requires
            f.a > 0,
            f.b * f.b - 4 * f.a * f.c < 0,
            f.b * f.b >= 0,
    ;
}

} // verus!
