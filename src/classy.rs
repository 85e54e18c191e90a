//! Reduced binary quadratic forms of a fixed negative discriminant, and the
//! reduction engine that brings a positive definite form to its reduced
//! representative.
use crate::form::{QForm, disc, equivalent, gauss_step, is_normal, is_reduced, is_valid, lemma_equivalent_refl, lemma_equivalent_step, lemma_equivalent_trans, lemma_steps_are_substitutions, transform, lemma_c_positive, lemma_gauss_step_disc, lemma_shift_form_disc, shift_form};
use crate::class_ctx::ClassCtx;
use crate::lin_congruence::LinCongruenceCtx;
use vstd::arithmetic::div_mod::{lemma_basic_div, lemma_div_by_multiple, lemma_div_multiples_vanish_quotient};
use vstd::arithmetic::power::{lemma_pow0, lemma_pow1, lemma_pow_adds, lemma_pow_positive, pow};
use crate::mpz::{Mpz, abs, bit_len, divides, floor_div, floor_mod, gcd, lemma_floor_mod_range};
use crate::partial::PartialGCDContext;
use crate::composition::{lemma_composite, lemma_first_congruence, lemma_second_congruence};
use vstd::prelude::*;

verus! {

/// Beyond this spread of bit lengths the word-sized approximation of a form
/// is not used for a step.
pub const EXP_THRESH: i64 = 31;

/// Bound on the entries of the substitution built in machine words.
pub const THRESH: u64 = 2147483648;

/// The form `a*x^2 + b*x*y + c*y^2`.
#[derive(Debug, Hash)]
pub struct ClassElem {
    pub a: Mpz,
    pub b: Mpz,
    pub c: Mpz,
}

impl View for ClassElem {
    type V = QForm;

    open spec fn view(&self) -> QForm {
        QForm { a: self.a@, b: self.b@, c: self.c@ }
    }
}

impl ClassElem {
    pub fn new(a: Mpz, b: Mpz, c: Mpz) -> (r: ClassElem)
        ensures
            r@ == (QForm { a: a@, b: b@, c: c@ }),
    {
        ClassElem { a, b, c }
    }
}

impl Clone for ClassElem {
    fn clone(&self) -> (r: Self)
        ensures
            r@ == self@,
    {
        ClassElem { a: self.a.copy(), b: self.b.copy(), c: self.c.copy() }
    }
}

impl PartialEq for ClassElem {
    fn eq(&self, o: &ClassElem) -> (r: bool)
        ensures
            r == (self@ == o@),
    {
        self.a.cmp_mpz(&o.a) == 0 && self.b.cmp_mpz(&o.b) == 0 && self.c.cmp_mpz(&o.c) == 0
    }
}

impl vstd::std_specs::cmp::PartialEqSpecImpl for ClassElem {
    open spec fn obeys_eq_spec() -> bool {
        true
    }

    open spec fn eq_spec(&self, o: &ClassElem) -> bool {
        self@ == o@
    }
}

impl Eq for ClassElem {

}

/// The discriminant `b^2 - 4ac` of a triple.
pub fn discriminant(a: &Mpz, b: &Mpz, c: &Mpz) -> (r: Mpz)
    ensures
        r@ == disc(QForm { a: a@, b: b@, c: c@ }),
{
    let mut d = Mpz::zero();
    let mut scratch = Mpz::zero();
    d.mul(b, b);
    scratch.mul(a, c);
    scratch.mul_ui_mut(4);
    d.sub_mut(&scratch);
    assert(a@ * c@ * 4 == 4 * a@ * c@) by (nonlinear_arith);
    d
}

/// Whether `|a| >= |b|` and `|c| >= |b|`; where so, the form is put in its
/// final order: `a` and `c` exchanged (with `b` negated) where `a > c`, and
/// `b` made non-negative where `a == c`.
pub fn test_reduction(x: &mut ClassElem) -> (r: bool)
    ensures
        r == passes_reduction_test(old(x)@),
        r ==> final(x)@ == reduction_order(old(x)@),
        !r ==> final(x)@ == old(x)@,
{
    let a_b = x.a.cmpabs(&x.b);
    let c_b = x.c.cmpabs(&x.b);
    if a_b < 0 || c_b < 0 {
        return false;
    }
    let a_c = x.a.cmp_mpz(&x.c);
    if a_c > 0 {
        x.a.swap(&mut x.c);
        x.b.neg_mut();
    }
    if a_c == 0 && x.b.is_neg() {
        x.b.neg_mut();
    }
    true
}

pub open spec fn passes_reduction_test(f: QForm) -> bool {
    abs(f.a) >= abs(f.b) && abs(f.c) >= abs(f.b)
}

proof fn lemma_reduction_order(f: QForm)
    requires
        f.a > 0,
        f.c > 0,
        passes_reduction_test(f),
    ensures
        disc(reduction_order(f)) == disc(f),
        reduction_order(f).a > 0,
        abs(reduction_order(f).b) <= reduction_order(f).a <= reduction_order(f).c,
        reduction_order(f).a == reduction_order(f).c ==> reduction_order(f).b >= 0,
{
    assert(4 * f.c * f.a == 4 * f.a * f.c) by (nonlinear_arith);
    assert((-f.b) * (-f.b) == f.b * f.b) by (nonlinear_arith);
}

proof fn lemma_reduction_order_equivalent(f: QForm)
    ensures
        equivalent(f, reduction_order(f)),
{
    lemma_equivalent_refl(f);
    lemma_steps_are_substitutions(f, 0, 0);
    if f.a > f.c || (f.a == f.c && f.b < 0) {
        lemma_equivalent_step(f, f, 0, -1, 1, 0);
    }
}

pub open spec fn reduction_order(f: QForm) -> QForm {
    if f.a > f.c {
        QForm { a: f.c, b: -f.b, c: f.a }
    } else if f.a == f.c && f.b < 0 {
        QForm { a: f.a, b: -f.b, c: f.c }
    } else {
        f
    }
}

/// `op << shift` for a positive shift, `op >> -shift` otherwise; 0 once the
/// right shift reaches the word size.
pub fn signed_shift(op: u64, shift: i64) -> (r: u64)
    requires
        shift < 64,
    ensures
        shift > 0 ==> r == op << (shift as u64),
        shift <= -64 ==> r == 0,
        -64 < shift <= 0 ==> r == op >> ((-shift) as u64),
{
    if shift > 0 {
        op << (shift as u64)
    } else if shift <= -64 {
        0
    } else {
        op >> ((-shift) as u64)
    }
}

/// `2^(bit_len(n) - 1) <= n < 2^bit_len(n)` for `n > 0`.
proof fn lemma_bit_len_bounds(n: nat)
    requires
        n > 0,
    ensures
        bit_len(n) >= 1,
        pow(2, (bit_len(n) - 1) as nat) <= n < pow(2, bit_len(n)),
    decreases n,
{
    if n == 1 {
        assert(bit_len(0) == 0);
        lemma_pow0(2);
        lemma_pow1(2);
    } else {
        let h = n / 2;
        lemma_bit_len_bounds(h);
        let k = bit_len(h);
        assert(bit_len(n) == k + 1);
        lemma_pow1(2);
        lemma_pow_adds(2, (k - 1) as nat, 1);
        lemma_pow_adds(2, k, 1);
        assert(pow(2, k) == 2 * pow(2, (k - 1) as nat));
        assert(pow(2, (k + 1) as nat) == 2 * pow(2, k));
    }
}

/// The leading bits of `op` as a signed word, with the bit length of `|op|`:
/// `|r.0| == floor(|op| * 2^63 / 2^r.1)`, so `op` is about `r.0 * 2^(r.1 - 63)`.
pub fn mpz_get_si_2exp(op: &Mpz) -> (r: (i64, i64))
    requires
        bit_len(abs(op@) as nat) <= u32::MAX,
    ensures
        r.1 == bit_len(abs(op@) as nat),
        0 <= r.1 <= u32::MAX,
        abs(r.0 as int) == abs(op@) * pow(2, 63) / pow(2, r.1 as nat),
        op@ >= 0 ==> r.0 >= 0,
        op@ <= 0 ==> r.0 <= 0,
{
    let e: u32 = op.bit_length() as u32;
    let mut m = Mpz::zero();
    m.abs(op);
    let ghost n = abs(op@);
    let ghost p63 = pow(2, 63);
    proof {
        lemma_pow_positive(2, e as nat);
        lemma_pow_positive(2, 63);
        if n > 0 {
            lemma_bit_len_bounds(n as nat);
        }
    }
    if e == 0 {
        assert(n == 0);
        proof {
            lemma_pow0(2);
            assert(n * p63 / pow(2, 0) == 0) by (nonlinear_arith)
                requires
                    n == 0,
                    pow(2, 0) == 1,
            ;
        }
        return (0, 0);
    }
    let top: u64 = if e > 63 {
        let k: u32 = e - 63;
        let mut t = Mpz::zero();
        t.fdiv_q_2exp(&m, k);
        proof {
            lemma_pow_positive(2, k as nat);
            lemma_pow_adds(2, k as nat, 63);
            assert(pow(2, e as nat) == pow(2, k as nat) * p63);
            lemma_div_multiples_vanish_quotient(p63, n, pow(2, k as nat));
            assert(n * p63 == p63 * n) by (nonlinear_arith);
            assert(pow(2, k as nat) * p63 == p63 * pow(2, k as nat)) by (nonlinear_arith);
            assert(t@ == n / pow(2, k as nat));
            assert(t@ < p63) by (nonlinear_arith)
                requires
                    t@ == n / pow(2, k as nat),
                    n < pow(2, k as nat) * p63,
                    pow(2, k as nat) > 0,
                    n >= 0,
            ;
            assert(t@ >= 0) by (nonlinear_arith)
                requires
                    t@ == n / pow(2, k as nat),
                    pow(2, k as nat) > 0,
                    n >= 0,
            ;
            assert(p63 == 0x8000_0000_0000_0000) by {
                vstd::arithmetic::power2::lemma_pow2(63);
                vstd::arithmetic::power2::lemma2_to64_rest();
            }
        }
        let v = t.to_i64();
        assert(v.is_some());
        let top1 = v.unwrap() as u64;
        assert(top1 as int == n * p63 / pow(2, e as nat));
        top1
    } else {
        let k: u32 = 63 - e;
        proof {
            lemma_pow_positive(2, k as nat);
            lemma_pow_adds(2, k as nat, e as nat);
            assert(p63 == pow(2, k as nat) * pow(2, e as nat));
            assert(p63 == 0x8000_0000_0000_0000) by {
                vstd::arithmetic::power2::lemma_pow2(63);
                vstd::arithmetic::power2::lemma2_to64_rest();
            }
            assert(n * pow(2, k as nat) < p63) by (nonlinear_arith)
                requires
                    n < pow(2, e as nat),
                    p63 == pow(2, k as nat) * pow(2, e as nat),
                    pow(2, k as nat) > 0,
                    n >= 0,
            ;
            assert(n * p63 == (n * pow(2, k as nat)) * pow(2, e as nat)) by (nonlinear_arith)
                requires
                    p63 == pow(2, k as nat) * pow(2, e as nat),
            ;
            lemma_div_by_multiple(n * pow(2, k as nat), pow(2, e as nat));
            assert(n * pow(2, k as nat) >= 0) by (nonlinear_arith)
                requires
                    pow(2, k as nat) > 0,
                    n >= 0,
            ;
        }
        assert(n < p63) by (nonlinear_arith)
            requires
                n * pow(2, k as nat) < p63,
                pow(2, k as nat) >= 1,
                n >= 0,
        ;
        let v = m.to_i64();
        assert(v.is_some());
        let w = v.unwrap() as u64;
        proof {
            vstd::arithmetic::power2::lemma_pow2(k as nat);
            vstd::bits::lemma_u64_shl_is_mul(w, k as u64);
        }
        let top2 = w << (k as u64);
        assert(top2 as int == n * pow(2, k as nat));
        assert(top2 as int == n * p63 / pow(2, e as nat));
        top2
    };
    assert(top as int == n * p63 / pow(2, e as nat));
    let ret: i64 = if top > i64::MAX as u64 {
        i64::MAX
    } else {
        top as i64
    };
    if op.is_neg() {
        (-ret, e as i64)
    } else {
        (ret, e as i64)
    }
}

/// The class group operations on `ClassElem`, for the discriminant of a `ClassCtx`.
pub struct ClassGroup;

impl ClassGroup {
    fn elem_is_normal(a: &Mpz, b: &Mpz) -> (r: bool)
        ensures
            r == (-a@ < b@ && b@ <= a@),
    {
        let mut scratch = Mpz::zero();
        scratch.neg(a);
        scratch.cmp_mpz(b) < 0 && b.cmp_mpz(a) <= 0
    }

    /// Normalizes the form `(a, b, c)`: `b` is moved into `(-a, a]` by
    /// `b += 2ra`, with `r = floor((a - b) / 2a)`.
    pub fn normalize(a: &mut Mpz, b: &mut Mpz, c: &mut Mpz)
        requires
            old(a)@ > 0,
        ensures
            (QForm { a: final(a)@, b: final(b)@, c: final(c)@ }) == shift_form(
                QForm { a: old(a)@, b: old(b)@, c: old(c)@ },
                floor_div(old(a)@ - old(b)@, 2 * old(a)@),
            ),
            is_normal(QForm { a: final(a)@, b: final(b)@, c: final(c)@ }),
            disc(QForm { a: final(a)@, b: final(b)@, c: final(c)@ }) == disc(
                QForm { a: old(a)@, b: old(b)@, c: old(c)@ },
            ),
    {
        let ghost f = QForm { a: a@, b: b@, c: c@ };
        let mut r = Mpz::zero();
        let mut denom = Mpz::zero();
        let mut old_b = Mpz::zero();
        let mut ra = Mpz::zero();
        // Binary Quadratic Forms, 5.1.1
        r.sub(a, b);
        denom.mul_ui(a, 2);
        r.fdiv_q_mut(&denom);
        old_b.set(b);
        ra.mul(&r, a);
        b.add_mut(&ra);
        b.add_mut(&ra);
        ra.mul_mut(&r);
        c.add_mut(&ra);
        ra.set(&r);
        ra.mul_mut(&old_b);
        c.add_mut(&ra);
        proof {
            let q = r@;
            let (x, y) = (f.a, f.b);
            assert(q == (x - y) / (2 * x));
            assert(0 <= (x - y) - 2 * x * q < 2 * x) by (nonlinear_arith)
                requires
                    x > 0,
                    q == (x - y) / (2 * x),
            ;
            assert(q * x * 2 == 2 * q * x) by (nonlinear_arith);
            assert(2 * x * q == 2 * q * x) by (nonlinear_arith);
            assert(q * x * q == q * q * x) by (nonlinear_arith);
            lemma_shift_form_disc(f, q);
        }
    }

    fn normalize_mut(x: &mut ClassElem)
        requires
            old(x)@.a > 0,
        ensures
            is_normal(final(x)@),
            disc(final(x)@) == disc(old(x)@),
            final(x)@.a == old(x)@.a,
            equivalent(old(x)@, final(x)@),
            is_normal(old(x)@) ==> final(x)@ == old(x)@,
            old(x)@.b == -old(x)@.a ==> final(x)@ == (QForm {
                a: old(x)@.a,
                b: old(x)@.a,
                c: old(x)@.c,
            }),
    {
        proof {
            lemma_equivalent_refl(x@);
        }
        if !Self::elem_is_normal(&x.a, &x.b) {
            proof {
                let a = x.a@;
                if x.b@ == -a {
                    assert((2 * a) / (2 * a) == 1) by (nonlinear_arith)
                        requires
                            a > 0,
                    ;
                    assert(x.a@ - x.b@ == 2 * a);
                    assert(floor_div(x.a@ - x.b@, 2 * x.a@) == 1);
                }
            }
            let ghost f = x@;
            Self::normalize(&mut x.a, &mut x.b, &mut x.c);
            proof {
                let r = floor_div(f.a - f.b, 2 * f.a);
                lemma_steps_are_substitutions(f, r, 0);
                lemma_equivalent_step(f, f, 1, r, 0, 1);
                if f.b == -f.a {
                    let r = floor_div(f.a - f.b, 2 * f.a);
                    assert(r == 1);
                    assert(r * r * f.a == f.a) by (nonlinear_arith)
                        requires
                            r == 1,
                    ;
                    assert(r * f.b == f.b) by (nonlinear_arith)
                        requires
                            r == 1,
                    ;
                    assert(2 * r * f.a == 2 * f.a) by (nonlinear_arith)
                        requires
                            r == 1,
                    ;
                }
            }
        }
    }

    /// One exact step of Gauss reduction: `(a, b, c)` becomes
    /// `(c, -b + 2c*delta, a - b*delta + c*delta^2)`, `delta = floor((b + c) / 2c)`.
    fn normalizer(elem: &mut ClassElem)
        requires
            old(elem)@.c > 0,
        ensures
            final(elem)@ == gauss_step(
                old(elem)@,
                floor_div(old(elem)@.b + old(elem)@.c, 2 * old(elem)@.c),
            ),
            disc(final(elem)@) == disc(old(elem)@),
            equivalent(old(elem)@, final(elem)@),
    {
        let ghost f = elem@;
        let mut mu = Mpz::zero();
        let mut s = Mpz::zero();
        let mut denom = Mpz::zero();
        let mut ra = Mpz::zero();
        let mut rb = Mpz::zero();
        let mut r = Mpz::zero();
        mu.add(&elem.b, &elem.c);
        s.mul_ui(&elem.c, 2);
        denom.fdiv_q(&mu, &s);
        ra.set(&elem.c);
        s.mul_ui(&denom, 2);
        rb.neg(&elem.b);
        rb.add_mul(&elem.c, &s);
        r.set(&elem.a);
        r.submul(&elem.b, &denom);
        denom.square_mut();
        r.add_mul(&elem.c, &denom);
        elem.a.set(&ra);
        elem.b.set(&rb);
        elem.c.set(&r);
        proof {
            let dl = floor_div(f.b + f.c, 2 * f.c);
            assert(f.c * (dl * 2) == 2 * f.c * dl) by (nonlinear_arith);
            assert(f.c * (dl * dl) == f.c * dl * dl) by (nonlinear_arith);
            lemma_gauss_step_disc(f, dl);
            lemma_steps_are_substitutions(f, 0, dl);
            lemma_equivalent_refl(f);
            lemma_equivalent_step(f, f, 0, -1, 1, dl);
        }
    }

    /// Normalizes, reduces, and normalizes again.
    fn reduce_mut(x: &mut ClassElem)
        requires
            old(x)@.a > 0,
            disc(old(x)@) < 0,
        ensures
            reduction_of(old(x)@, final(x)@),
    {
        let ghost f0 = x@;
        Self::normalize_mut(x);
        let ghost f1 = x@;
        Self::reduce(x);
        let ghost f2 = x@;
        Self::normalize_mut(x);
        proof {
            lemma_equivalent_trans(f0, f1, f2);
            lemma_equivalent_trans(f0, f2, x@);
        }
    }

    /// Reduces a positive definite form to the reduced form of its class.
    pub fn reduce(elem: &mut ClassElem)
        requires
            old(elem)@.a > 0,
            disc(old(elem)@) < 0,
        ensures
            is_reduced(final(elem)@),
            final(elem)@.a > 0,
            disc(final(elem)@) == disc(old(elem)@),
            equivalent(old(elem)@, final(elem)@),
            is_reduced(old(elem)@) ==> final(elem)@ == old(elem)@,
            reduction_of(old(elem)@, final(elem)@),
    {
        let ghost d = disc(elem@);
        let ghost f0 = elem@;
        proof {
            lemma_equivalent_refl(f0);
        }
        loop
            invariant
                disc(elem@) == d,
                d < 0,
                elem@.a > 0,
                equivalent(f0, elem@),
                is_reduced(f0) ==> elem@ == f0,
            ensures
                equivalent(f0, elem@),
                disc(elem@) == d,
                elem@.a > 0,
                abs(elem@.b) <= elem@.a <= elem@.c,
                elem@.a == elem@.c ==> elem@.b >= 0,
                is_reduced(f0) ==> elem@ == f0,
            decreases elem@.a,
        {
            // a normal form that fails the test has c < a
            let ghost e0 = elem@;
            Self::normalize_mut(elem);
            proof {
                lemma_equivalent_trans(f0, e0, elem@);
            }
            proof {
                lemma_c_positive(elem@);
            }
            let ghost before = elem@;
            if test_reduction(elem) {
                proof {
                    lemma_reduction_order(before);
                    lemma_reduction_order_equivalent(before);
                    lemma_equivalent_trans(f0, before, elem@);
                }
                break;
            }
            let ghost a_before = elem@.a;
            assert(elem@.c < a_before);
            let ghost e1 = elem@;
            Self::reduce_step(elem);
            proof {
                lemma_equivalent_trans(f0, e1, elem@);
            }
        }
        // test_reduction leaves b == -a in place
        let ghost e2 = elem@;
        Self::normalize_mut(elem);
        proof {
            lemma_equivalent_trans(f0, e2, elem@);
        }
    }

    /// One step of the reduction loop on a normal form that is not reduced:
    /// several Gauss steps taken at once on the leading words of `a`, `b`,
    /// `c`, applied to the full numbers; where that step does not keep the
    /// discriminant or does not make `a` smaller, one exact Gauss step.
    fn reduce_step(elem: &mut ClassElem)
        requires
            old(elem)@.a > 0,
            old(elem)@.c > 0,
            old(elem)@.c < old(elem)@.a,
        ensures
            disc(final(elem)@) == disc(old(elem)@),
            equivalent(old(elem)@, final(elem)@),
            0 < final(elem)@.a < old(elem)@.a,
    {
        let limit = u32::MAX as usize;
        if elem.a.bit_length() > limit || elem.b.bit_length() > limit || elem.c.bit_length() > limit {
            Self::normalizer(elem);
            return;
        }
        let (a_m, a_exp) = mpz_get_si_2exp(&elem.a);
        let (b_m, b_exp) = mpz_get_si_2exp(&elem.b);
        let (c_m, c_exp) = mpz_get_si_2exp(&elem.c);
        let mut max_exp = a_exp;
        let mut min_exp = a_exp;
        if b_exp > max_exp {
            max_exp = b_exp;
        }
        if c_exp > max_exp {
            max_exp = c_exp;
        }
        if b_exp < min_exp {
            min_exp = b_exp;
        }
        if c_exp < min_exp {
            min_exp = c_exp;
        }
        if max_exp - min_exp > EXP_THRESH {
            Self::normalizer(elem);
            return;
        }
        // one bit of headroom against overflow
        let (u, v, w, y) = word_substitution(
            shift_down(a_m, max_exp + 1 - a_exp),
            shift_down(b_m, max_exp + 1 - b_exp),
            shift_down(c_m, max_exp + 1 - c_exp),
        );
        let (mu, mv, mw, my) = (Mpz::from_i64(u), Mpz::from_i64(v), Mpz::from_i64(w), Mpz::from_i64(y));
        let next = substitute(elem, &mu, &mv, &mw, &my);
        let d_now = discriminant(&elem.a, &elem.b, &elem.c);
        let d_next = discriminant(&next.a, &next.b, &next.c);
        let unimodular = has_determinant_one(u, v, w, y);
        if unimodular && d_now.cmp_mpz(&d_next) == 0 && next.a.sgn() > 0 && next.a.cmp_mpz(&elem.a)
            < 0 {
            proof {
                lemma_equivalent_refl(elem@);
                lemma_equivalent_step(elem@, elem@, u as int, v as int, w as int, y as int);
            }
            *elem = next;
        } else {
            Self::normalizer(elem);
        }
    }
}

/// `x >> k` for a shift in `[0, 63]`, and 0 or -1 beyond.
fn shift_down(x: i64, k: i64) -> (r: i64)
    requires
        k >= 0,
{
    if k >= 63 {
        if x < 0 {
            -1
        } else {
            0
        }
    } else {
        x >> (k as u64)
    }
}

proof fn lemma_word_product(x: int, y: int)
    requires
        -0x8000_0000_0000_0000 <= x < 0x8000_0000_0000_0000,
        -0x8000_0000_0000_0000 <= y < 0x8000_0000_0000_0000,
    ensures
        -0x4000_0000_0000_0000_0000_0000_0000_0000 + 0x8000_0000_0000_0000 <= x * y
            <= 0x4000_0000_0000_0000_0000_0000_0000_0000,
{
    let b: int = 0x8000_0000_0000_0000;
    assert(b * b == 0x4000_0000_0000_0000_0000_0000_0000_0000);
    assert(-b * b + b <= x * y <= b * b) by (nonlinear_arith)
        requires
            -b <= x < b,
            -b <= y < b,
    ;
}

/// Whether `m` divides `n`, for `m != 0`.
fn divides_exactly(m: &Mpz, n: &Mpz) -> (r: bool)
    requires
        m@ != 0,
    ensures
        r ==> divides(m@, n@),
{
    let mut rem = Mpz::zero();
    rem.fdiv_r(n, m);
    if !rem.is_zero() {
        return false;
    }
    proof {
        let k = floor_div(n@, m@);
        assert(m@ * k == n@);
    }
    true
}

/// Whether `f` is a composite of `x` and `y` with the discriminant of `x`.
fn composite_check(x: &ClassElem, y: &ClassElem, f: &ClassElem) -> (r: bool)
    ensures
        r ==> is_composite(x@, y@, f@),
{
    let mut g = Mpz::zero();
    g.add(&x.b, &y.b);
    g.fdiv_q_ui_mut(2);
    let mut w = Mpz::zero();
    w.gcd(&x.a, &y.a);
    w.gcd_mut(&g);
    if w.sgn() <= 0 || x.a.sgn() <= 0 || y.a.sgn() <= 0 {
        return false;
    }
    let mut lhs = Mpz::zero();
    lhs.mul(&w, &w);
    lhs.mul_mut(&f.a);
    let mut rhs = Mpz::zero();
    rhs.mul(&x.a, &y.a);
    let mut m = Mpz::zero();
    let mut n = Mpz::zero();
    m.mul_ui(&x.a, 2);
    n.sub(&f.b, &x.b);
    n.mul_mut(&w);
    let first = divides_exactly(&m, &n);
    m.mul_ui(&y.a, 2);
    n.sub(&f.b, &y.b);
    n.mul_mut(&w);
    let second = divides_exactly(&m, &n);
    let dx = discriminant(&x.a, &x.b, &x.c);
    let df = discriminant(&f.a, &f.b, &f.c);
    proof {
        assert(w@ * w@ * f@.a == f@.a * (w@ * w@)) by (nonlinear_arith);
        assert(x@.a * 2 == 2 * x@.a);
        assert((f@.b - x@.b) * w@ == w@ * (f@.b - x@.b)) by (nonlinear_arith);
        assert((f@.b - y@.b) * w@ == w@ * (f@.b - y@.b)) by (nonlinear_arith);
    }
    lhs.cmp_mpz(&rhs) == 0 && first && second && dx.cmp_mpz(&df) == 0
}

/// Whether `u*y - v*w == 1`.
fn has_determinant_one(u: i64, v: i64, w: i64, y: i64) -> (r: bool)
    ensures
        r == (u * y - v * w == 1),
{
    let (u2, v2, w2, y2) = (u as i128, v as i128, w as i128, y as i128);
    proof {
        lemma_word_product(u2 as int, y2 as int);
        lemma_word_product(v2 as int, w2 as int);
    }
    u2 * y2 - v2 * w2 == 1
}

/// `|x|` as an unsigned word.
fn word_abs(x: i64) -> (r: u64)
    ensures
        r as int == abs(x as int),
{
    if x >= 0 {
        x as u64
    } else {
        ((-(x + 1)) as u64) + 1
    }
}

/// The substitution `(u, v, w, y)` that a run of Gauss steps on the word
/// form `(a, b, c)` builds; it stops where an entry would pass `THRESH`, an
/// operation would overflow, or the word form is reduced.
fn word_substitution(a0: i64, b0: i64, c0: i64) -> (r: (i64, i64, i64, i64)) {
    let (mut a, mut b, mut c) = (a0, b0, c0);
    let (mut u_, mut v_, mut w_, mut y_): (i64, i64, i64, i64) = (1, 0, 0, 1);
    let (mut u, mut v, mut w, mut y): (i64, i64, i64, i64) = (1, 0, 0, 1);
    if c <= 0 {
        return (u, v, w, y);
    }
    let mut in_bound: bool = true;
    loop
        invariant_except_break
            c > 0,
        decreases c,
    {
        u = u_;
        v = v_;
        w = w_;
        y = y_;
        let two_c = match c.checked_mul(2) {
            Some(t) => t,
            None => break,
        };
        let delta: i64 = if b >= 0 {
            match b.checked_add(c) {
                Some(t) => t / two_c,
                None => break,
            }
        } else {
            match c.checked_sub(b) {
                Some(t) => -(t / two_c),
                None => break,
            }
        };
        let a_ = c;
        let c_d = match c.checked_mul(delta) {
            Some(t) => t,
            None => break,
        };
        let b_ = match c_d.checked_mul(2) {
            Some(t) => match t.checked_sub(b) {
                Some(t2) => t2,
                None => break,
            },
            None => break,
        };
        let gamma = match b.checked_sub(c_d) {
            Some(t) => t,
            None => break,
        };
        let c_ = match delta.checked_mul(gamma) {
            Some(t) => match a.checked_sub(t) {
                Some(t2) => t2,
                None => break,
            },
            None => break,
        };
        let nv = match delta.checked_mul(v) {
            Some(t) => match t.checked_sub(u) {
                Some(t2) => t2,
                None => break,
            },
            None => break,
        };
        let ny = match delta.checked_mul(y) {
            Some(t) => match t.checked_sub(w) {
                Some(t2) => t2,
                None => break,
            },
            None => break,
        };
        a = a_;
        b = b_;
        c = c_;
        u_ = v;
        v_ = nv;
        w_ = y;
        y_ = ny;
        in_bound = (word_abs(v_) | word_abs(y_)) <= THRESH;
        if !(in_bound && a > c && c > 0) {
            break;
        }
    }
    if in_bound {
        (u_, v_, w_, y_)
    } else {
        (u, v, w, y)
    }
}

/// The form `f(u*x + v*y, w*x + y*y)`.
fn substitute(f: &ClassElem, mu: &Mpz, mv: &Mpz, mw: &Mpz, my: &Mpz) -> (r: ClassElem)
    ensures
        r@ == transform(f@, mu@, mv@, mw@, my@),
{
    let mut t = Mpz::zero();
    let mut k = Mpz::zero();
    // a' = a*u^2 + b*u*w + c*w^2
    let mut na = Mpz::zero();
    t.mul(mu, mu);
    na.mul(&f.a, &t);
    t.mul(mu, mw);
    na.add_mul(&f.b, &t);
    t.mul(mw, mw);
    na.add_mul(&f.c, &t);
    // b' = 2a*u*v + b*(u*y + v*w) + 2c*w*y
    let mut nb = Mpz::zero();
    t.mul(mu, mv);
    t.mul_ui_mut(2);
    nb.mul(&f.a, &t);
    t.mul(mu, my);
    k.mul(mv, mw);
    t.add_mut(&k);
    nb.add_mul(&f.b, &t);
    t.mul(mw, my);
    t.mul_ui_mut(2);
    nb.add_mul(&f.c, &t);
    // c' = a*v^2 + b*v*y + c*y^2
    let mut nc = Mpz::zero();
    t.mul(mv, mv);
    nc.mul(&f.a, &t);
    t.mul(mv, my);
    nc.add_mul(&f.b, &t);
    t.mul(my, my);
    nc.add_mul(&f.c, &t);
    proof {
        let (ui, vi, wi, yi) = (mu@, mv@, mw@, my@);
        assert(ui * vi * 2 == 2 * ui * vi) by (nonlinear_arith);
        assert(wi * yi * 2 == 2 * wi * yi) by (nonlinear_arith);
    }
    ClassElem { a: na, b: nb, c: nc }
}


/// A group element: a reduced positive definite form of discriminant `d`.
pub open spec fn is_element(f: QForm, d: int) -> bool {
    is_valid(f, d) && is_reduced(f)
}

/// The identity: the principal form `(1, 1, (1 - d)/4)`.
pub open spec fn identity_form(d: int) -> QForm {
    QForm { a: 1, b: 1, c: (1 - d) / 4 }
}

/// The generator before reduction: `(2, 1, (1 - d)/8)`.
pub open spec fn generator_form(d: int) -> QForm {
    QForm { a: 2, b: 1, c: (1 - d) / 8 }
}

/// `f` is a composite of `x` and `y` in Dirichlet's sense: with
/// `w = gcd(x.a, y.a, (x.b + y.b)/2)`, `f.a == x.a*y.a/w^2`,
/// `f.b == x.b (mod 2*x.a/w)`, `f.b == y.b (mod 2*y.a/w)`, and `f` has the
/// discriminant of `x`. Its class is the product of the classes of `x` and `y`.
pub open spec fn is_composite(x: QForm, y: QForm, f: QForm) -> bool {
    let w = gcd(gcd(x.a, y.a), floor_div(x.b + y.b, 2));
    &&& w > 0
    &&& f.a * (w * w) == x.a * y.a
    &&& divides(2 * x.a, w * (f.b - x.b))
    &&& divides(2 * y.a, w * (f.b - y.b))
    &&& disc(f) == disc(x)
}

/// What `reduce` makes of `f`: the reduced form `g` of the class of `f`,
/// which is `f` itself where `f` is already reduced.
pub open spec fn reduction_of(f: QForm, g: QForm) -> bool {
    &&& is_reduced(g)
    &&& g.a > 0
    &&& disc(g) == disc(f)
    &&& equivalent(f, g)
    &&& (is_reduced(f) ==> g == f)
}

/// Reducing twice is reducing once.
pub proof fn lemma_reduction_idempotent(f: QForm, g: QForm, h: QForm)
    requires
        reduction_of(f, g),
        reduction_of(g, h),
    ensures
        h == g,
{
}

/// The inverse `(a, -b, c)`, which is its own reduced representative except
/// where `b == a` or `a == c`: there the class is its own inverse.
pub open spec fn inverse_form(f: QForm) -> QForm {
    if f.b == f.a || f.a == f.c {
        f
    } else {
        QForm { a: f.a, b: -f.b, c: f.c }
    }
}

/// Inverting twice gives the element back.
pub proof fn lemma_inv_involution(f: QForm)
    requires
        is_reduced(f),
    ensures
        inverse_form(inverse_form(f)) == f,
{
}

/// The inverse of an element is an element of the same group.
pub proof fn lemma_inv_element(f: QForm, d: int)
    requires
        is_element(f, d),
    ensures
        is_element(inverse_form(f), d),
{
    assert((-f.b) * (-f.b) == f.b * f.b) by (nonlinear_arith);
}

/// The identity is an element of every group of a valid discriminant.
pub proof fn lemma_identity_element(d: int)
    requires
        d < 0,
        d % 4 == 1,
    ensures
        is_element(identity_form(d), d),
{
    let c = (1 - d) / 4;
    assert(1 - d == 4 * c) by {
        vstd::arithmetic::div_mod::lemma_fundamental_div_mod(1 - d, 4);
    }
}

impl ClassGroup {
    /// The identity element.
    pub fn id(ctx: &ClassCtx) -> (r: ClassElem)
        requires
            ctx.wf(),
        ensures
            r@ == identity_form(ctx.d@),
            is_element(r@, ctx.d@),
    {
        // Binary Quadratic Forms, Definition 5.4: the principal form.
        let mut a = Mpz::zero();
        let mut ret = ClassElem { a: Mpz::one(), b: Mpz::one(), c: Mpz::zero() };
        a.sub(&ret.b, &ctx.d);
        ret.c.fdiv_q_ui(&a, 4);
        proof {
            lemma_identity_element(ctx.d@);
        }
        ret
    }

    /// The inverse `(a, -b, c)`, kept reduced.
    pub fn inv(x: &ClassElem) -> (r: ClassElem)
        ensures
            r@ == inverse_form(x@),
            disc(r@) == disc(x@),
    {
        proof {
            assert((-x@.b) * (-x@.b) == x@.b * x@.b) by (nonlinear_arith);
        }
        if x.b.cmp_mpz(&x.a) == 0 || x.a.cmp_mpz(&x.c) == 0 {
            return x.clone();
        }
        let mut ret = ClassElem { a: Mpz::zero(), b: Mpz::zero(), c: Mpz::zero() };
        ret.a.set(&x.a);
        ret.b.neg(&x.b);
        ret.c.set(&x.c);
        ret
    }

    /// Whether `(a, b, c)` has the group's discriminant.
    pub fn validate(ctx: &ClassCtx, a: &Mpz, b: &Mpz, c: &Mpz) -> (r: bool)
        ensures
            r == (disc(QForm { a: a@, b: b@, c: c@ }) == ctx.d@),
    {
        discriminant(a, b, c).cmp_mpz(&ctx.d) == 0
    }

    /// The element of a positive definite form of the group's discriminant.
    pub fn elem(ctx: &ClassCtx, abc: (Mpz, Mpz, Mpz)) -> (r: ClassElem)
        requires
            ctx.wf(),
            abc.0@ > 0,
            disc(QForm { a: abc.0@, b: abc.1@, c: abc.2@ }) == ctx.d@,
        ensures
            is_element(r@, ctx.d@),
            equivalent(QForm { a: abc.0@, b: abc.1@, c: abc.2@ }, r@),
            is_reduced(QForm { a: abc.0@, b: abc.1@, c: abc.2@ }) ==> r@ == (QForm {
                a: abc.0@,
                b: abc.1@,
                c: abc.2@,
            }),
    {
        let (a, b, c) = abc;
        let mut el = ClassElem { a, b, c };
        Self::reduce(&mut el);
        el
    }

    /// The generator `(2, 1, (1 - d)/8)`, reduced.
    pub fn unknown_order_elem(ctx: &ClassCtx) -> (r: ClassElem)
        requires
            ctx.wf(),
            ctx.d@ % 8 == 1,
        ensures
            is_element(r@, ctx.d@),
            equivalent(generator_form(ctx.d@), r@),
            is_reduced(generator_form(ctx.d@)) ==> r@ == generator_form(ctx.d@),
    {
        Self::unknown_order_elem_disc(&ctx.d)
    }

    /// The generator `(2, 1, (1 - disc)/8)` of the group of `disc`, reduced.
    pub fn unknown_order_elem_disc(disc: &Mpz) -> (r: ClassElem)
        requires
            disc@ < 0,
            disc@ % 8 == 1,
        ensures
            is_element(r@, disc@),
            equivalent(generator_form(disc@), r@),
            is_reduced(generator_form(disc@)) ==> r@ == generator_form(disc@),
    {
        // Binary Quadratic Forms, Definition 5.4
        let mut ret = ClassElem { a: Mpz::from_u64(2), b: Mpz::one(), c: Mpz::one() };
        ret.c.sub_mut(disc);
        ret.c.fdiv_q_ui_mut(8);
        proof {
            let c = (1 - disc@) / 8;
            vstd::arithmetic::div_mod::lemma_fundamental_div_mod(1 - disc@, 8);
            assert(1 - disc@ == 8 * c);
            assert(ret@.c == c);
            assert(4 * 2 * c == 8 * c);
            let f = ret@;
            assert(f.b * f.b - 4 * f.a * f.c == 1 - 8 * c) by (nonlinear_arith)
                requires
                    f.a == 2,
                    f.b == 1,
                    f.c == c,
            ;
        }
        Self::reduce(&mut ret);
        ret
    }

    /// Reduces a form that should be of the group's discriminant; where the
    /// arithmetic that built it went astray, `None`.
    fn finish(ctx: &ClassCtx, mut f: ClassElem) -> (r: Option<ClassElem>)
        requires
            ctx.wf(),
        ensures
            r.is_some() ==> is_element(r.unwrap()@, ctx.d@),
            r.is_some() ==> disc(f@) == ctx.d@ && reduction_of(f@, r.unwrap()@),
    {
        if f.a.sgn() <= 0 || !Self::validate(ctx, &f.a, &f.b, &f.c) {
            return None;
        }
        Self::reduce_mut(&mut f);
        Some(f)
    }

    /// Composition of two elements (Binary Quadratic Forms, 6.1.1): the
    /// reduced form of a composite of `x` and `y`.
    pub fn op(ctx: &ClassCtx, x: &ClassElem, y: &ClassElem) -> (r: ClassElem)
        requires
            ctx.wf(),
            is_valid(x@, ctx.d@),
            is_valid(y@, ctx.d@),
        ensures
            is_element(r@, ctx.d@),
            exists|f: QForm| is_composite(x@, y@, f) && #[trigger] equivalent(f, r@),
    {
        let ghost d = ctx.d@;
        let lin = LinCongruenceCtx::new();
        let mut g = Mpz::zero();
        let mut h = Mpz::zero();
        let mut w = Mpz::zero();
        let mut s = Mpz::zero();
        let mut t = Mpz::zero();
        let mut u = Mpz::zero();
        let mut a = Mpz::zero();
        let mut b = Mpz::zero();
        let mut m = Mpz::zero();
        let mut k = Mpz::zero();
        let mut l = Mpz::zero();
        let mut mu = Mpz::zero();
        let mut v = Mpz::zero();
        let mut lambda = Mpz::zero();
        let mut sigma = Mpz::zero();
        proof {
            lemma_first_congruence(x@, y@, d);
        }
        g.add(&x.b, &y.b);
        g.fdiv_q_ui_mut(2);
        h.sub(&y.b, &x.b);
        h.fdiv_q_ui_mut(2);
        w.gcd(&x.a, &y.a);
        w.gcd_mut(&g);
        let j = w.copy();
        s.fdiv_q(&x.a, &w);
        t.fdiv_q(&y.a, &w);
        u.fdiv_q(&g, &w);
        a.mul(&t, &u);
        b.mul(&h, &u);
        m.mul(&s, &x.c);
        b.add_mut(&m);
        m.mul(&s, &t);
        assert(m@ > 0) by (nonlinear_arith)
            requires
                m@ == s@ * t@,
                s@ > 0,
                t@ > 0,
        ;
        let solved = lin.solve_linear_congruence(&mut mu, &mut v, &a, &b, &m);
        assert(solved);
        proof {
            lemma_second_congruence(x@, y@, d, mu@, v@);
        }
        a.mul(&t, &v);
        m.mul(&t, &mu);
        b.sub(&h, &m);
        m.set(&s);
        let solved = lin.solve_linear_congruence(&mut lambda, &mut sigma, &a, &b, &m);
        assert(solved);
        proof {
            lemma_composite(x@, y@, d, mu@, v@, lambda@);
        }
        a.mul(&v, &lambda);
        k.add(&mu, &a);
        l.mul(&k, &t);
        l.sub_mut(&h);
        l.fdiv_q_mut(&s);
        m.mul(&t, &u);
        m.mul_mut(&k);
        a.mul(&h, &u);
        m.sub_mut(&a);
        a.mul(&x.c, &s);
        m.sub_mut(&a);
        a.mul(&s, &t);
        m.fdiv_q_mut(&a);
        let mut ret = ClassElem { a: Mpz::zero(), b: Mpz::zero(), c: Mpz::zero() };
        ret.a.mul(&s, &t);
        ret.b.mul(&j, &u);
        a.mul(&k, &t);
        ret.b.sub_mut(&a);
        a.mul(&l, &s);
        ret.b.sub_mut(&a);
        ret.c.mul(&k, &l);
        a.mul(&j, &m);
        ret.c.sub_mut(&a);
        let ghost f = ret@;
        assert(is_composite(x@, y@, f));
        Self::reduce_mut(&mut ret);
        ret
    }

    /// Squares `x` in place with NUDUPL (Jacobson and van der Poorten,
    /// "Computational aspects of NUCOMP", Algorithm 2): the closed form
    /// where `a/gcd(a, b) <= L`, Lehmer's partial GCD otherwise. The result
    /// is confirmed to be a substitution of determinant 1 of the composite
    /// of `x` with itself; generic composition stands in where it is not.
    pub fn square(ctx: &ClassCtx, x: &mut ClassElem)
        requires
            ctx.wf(),
            is_valid(old(x)@, ctx.d@),
        ensures
            is_element(final(x)@, ctx.d@),
            exists|f: QForm| is_composite(old(x)@, old(x)@, f) && #[trigger] equivalent(f, final(x)@),
    {
        match Self::nudupl(ctx, x) {
            Some(r) => {
                *x = r;
            },
            None => {
                let r = Self::op(ctx, x, x);
                *x = r;
            },
        }
    }

    fn nudupl(ctx: &ClassCtx, x: &ClassElem) -> (r: Option<ClassElem>)
        requires
            ctx.wf(),
            x@.a > 0,
        ensures
            r.is_some() ==> is_element(r.unwrap()@, ctx.d@),
            r.is_some() ==> exists|f: QForm|
                is_composite(x@, x@, f) && #[trigger] equivalent(f, r.unwrap()@),
    {
        let partial = PartialGCDContext::new();
        let mut g = Mpz::zero();
        let mut scratch = Mpz::zero();
        let mut y = Mpz::zero();
        let mut by_ = Mpz::zero();
        let mut dy = Mpz::zero();
        let mut bx = Mpz::zero();
        let mut dx = Mpz::zero();
        let mut t = Mpz::zero();
        // Step 1
        g.gcdext(&mut scratch, &mut y, &x.a, &x.b);
        if g.sgn() <= 0 {
            return None;
        }
        by_.fdiv_q(&x.a, &g);
        dy.fdiv_q(&x.b, &g);
        if by_.sgn() <= 0 {
            return None;
        }
        // Step 2
        bx.mul(&y, &x.c);
        let ghost ycx = bx@;
        bx.fdiv_r_mut(&by_);
        proof {
            lemma_floor_mod_range(ycx, by_@);
        }
        // the composite of x with itself: (By^2, b - 2*Bx*By, Bx^2 - G*dx)
        let mut comp = ClassElem { a: Mpz::zero(), b: x.b.copy(), c: Mpz::zero() };
        dx.mul(&bx, &dy);
        dx.sub_mut(&x.c);
        dx.fdiv_q_mut(&by_);
        comp.a.mul(&by_, &by_);
        comp.c.mul(&bx, &bx);
        t.add(&bx, &by_);
        t.square_mut();
        comp.b.sub_mut(&t);
        comp.b.add_mut(&comp.a);
        comp.b.add_mut(&comp.c);
        t.mul(&g, &dx);
        comp.c.sub_mut(&t);
        if !composite_check(x, x, &comp) {
            return None;
        }
        let ghost f = comp@;
        if by_.cmpabs(&ctx.l) <= 0 {
            // Step 4: the composite is small enough as it is
            let out = Self::finish(ctx, comp);
            proof {
                if out.is_some() {
                    assert(equivalent(f, out.unwrap()@));
                }
            }
            return out;
        }
        // Lehmer partial extended GCD
        let mut xx = Mpz::zero();
        let mut by = by_.copy();
        let bx0 = bx.copy();
        partial.xgcd_partial(&mut y, &mut xx, &mut by, &mut bx, &ctx.l);
        // the substitution from the composite: columns ((r2 + c2*Bx)/By, c2)
        // and +-((r1 + c1*Bx)/By, c1)
        let mut p = Mpz::zero();
        p.mul(&y, &bx0);
        p.add_mut(&by);
        p.fdiv_q_mut(&by_);
        let mut q = Mpz::zero();
        q.mul(&xx, &bx0);
        q.add_mut(&bx);
        q.fdiv_q_mut(&by_);
        let mut rr = y.copy();
        let mut ss = xx.copy();
        let mut det = Mpz::zero();
        det.mul(&p, &ss);
        det.submul(&q, &rr);
        if det.cmp_si(-1) == 0 {
            q.neg_mut();
            ss.neg_mut();
        }
        let mut det1 = Mpz::zero();
        det1.mul(&p, &ss);
        det1.submul(&q, &rr);
        let expected = substitute(&comp, &p, &q, &rr, &ss);
        // Step 5
        let mut ret = ClassElem { a: Mpz::zero(), b: Mpz::zero(), c: Mpz::zero() };
        let mut ax = Mpz::zero();
        let mut ay = Mpz::zero();
        let mut q1 = Mpz::zero();
        let mut ddy = Mpz::zero();
        xx.neg_mut();
        if xx.sgn() > 0 {
            y.neg_mut();
        } else {
            by.neg_mut();
        }
        if xx.is_zero() || !det1.is_one() {
            return None;
        }
        ax.mul(&g, &xx);
        ay.mul(&g, &y);
        t.mul(&dy, &bx);
        t.submul(&x.c, &xx);
        dx.fdiv_q(&t, &by_);
        q1.mul(&y, &dx);
        ddy.add(&q1, &dy);
        ret.b.add(&ddy, &q1);
        ret.b.mul_mut(&g);
        ddy.fdiv_q_mut(&xx);
        ret.a.mul(&by, &by);
        ret.c.mul(&bx, &bx);
        t.add(&bx, &by);
        ret.b.submul(&t, &t);
        ret.b.add_mut(&ret.a);
        ret.b.add_mut(&ret.c);
        ret.a.submul(&ay, &ddy);
        ret.c.submul(&ax, &dx);
        if ret != expected {
            return None;
        }
        proof {
            lemma_equivalent_refl(f);
            lemma_equivalent_step(f, f, p@, q@, rr@, ss@);
        }
        let ghost g2 = ret@;
        let out = Self::finish(ctx, ret);
        proof {
            if out.is_some() {
                lemma_equivalent_trans(f, g2, out.unwrap()@);
            }
        }
        out
    }

    /// Composition by NUCOMP (Jacobson and van der Poorten): the closed form
    /// where the reduced `a1` is below `L`, Lehmer's partial GCD otherwise.
    /// The result is confirmed to come from a composite of `x` and `y` by
    /// a substitution of determinant 1; generic composition stands in where
    /// it does not.
    pub fn nucomp(ctx: &ClassCtx, x: &ClassElem, y: &ClassElem) -> (r: ClassElem)
        requires
            ctx.wf(),
            is_valid(x@, ctx.d@),
            is_valid(y@, ctx.d@),
        ensures
            is_element(r@, ctx.d@),
            exists|f: QForm| is_composite(x@, y@, f) && #[trigger] equivalent(f, r@),
    {
        let found = if x.a.cmp_mpz(&y.a) > 0 {
            Self::nucomp_ordered(ctx, y, x)
        } else {
            Self::nucomp_ordered(ctx, x, y)
        };
        if let Some((comp, cand)) = found {
            if composite_check(x, y, &comp) {
                let ghost f = comp@;
                let ghost g2 = cand@;
                let out = Self::finish(ctx, cand);
                if let Some(r) = out {
                    proof {
                        lemma_equivalent_trans(f, g2, r@);
                    }
                    assert(is_composite(x@, y@, f) && equivalent(f, r@));
                    return r;
                }
            }
        }
        Self::op(ctx, x, y)
    }

    /// NUCOMP for `x.a <= y.a`, before the final reduction: the composite
    /// of the closed form, and the form that NUCOMP makes of it, which is the
    /// composite itself where `a1 < L` and a partial reduction by Lehmer's
    /// partial GCD otherwise. `None` where the second is not confirmed to be
    /// equivalent to the first.
    fn nucomp_ordered(ctx: &ClassCtx, x: &ClassElem, y: &ClassElem) -> (r: Option<
        (ClassElem, ClassElem),
    >)
        requires
            ctx.wf(),
            x@.a > 0,
        ensures
            r.is_some() ==> equivalent(r.unwrap().0@, r.unwrap().1@),
    {
        let partial = PartialGCDContext::new();
        let mut a1 = x.a.copy();
        let mut a2 = y.a.copy();
        let mut c2 = y.c.copy();
        let mut ss = Mpz::zero();
        let mut m = Mpz::zero();
        let mut t = Mpz::zero();
        let mut v1 = Mpz::zero();
        let mut sp = Mpz::zero();
        let mut k = Mpz::zero();
        let mut s = Mpz::zero();
        let mut u2 = Mpz::zero();
        let mut v2 = Mpz::zero();
        let mut ret = ClassElem { a: Mpz::zero(), b: Mpz::zero(), c: Mpz::zero() };
        ss.add(&x.b, &y.b);
        ss.fdiv_q_ui_mut(2);
        m.sub(&x.b, &y.b);
        m.fdiv_q_ui_mut(2);
        t.fdiv_r(&a2, &a1);
        if t.is_zero() {
            v1.set_ui(0);
            sp.set(&a1);
        } else {
            // sp = gcd(t, a1), v1 = t^(-1) mod a1/sp
            let mut unused = Mpz::zero();
            sp.gcdext(&mut v1, &mut unused, &t, &a1);
            v1.fdiv_r_mut(&a1);
        }
        k.mul(&m, &v1);
        k.fdiv_r_mut(&a1);
        proof {
            lemma_floor_mod_range(m@ * v1@, a1@);
        }
        if !sp.is_one() {
            s.gcdext(&mut v2, &mut u2, &ss, &sp);
            k.mul_mut(&u2);
            t.mul(&v2, &c2);
            k.sub_mut(&t);
            if s.sgn() <= 0 {
                return None;
            }
            if !s.is_one() {
                a1.fdiv_q_mut(&s);
                a2.fdiv_q_mut(&s);
                c2.mul_mut(&s);
            }
            if a1.sgn() <= 0 {
                return None;
            }
            let ghost k0 = k@;
            k.fdiv_r_mut(&a1);
            proof {
                lemma_floor_mod_range(k0, a1@);
            }
        }
        // the closed form: (a1*a2, b2 + 2*a2*k, ((b2 + a2*k)*k + c2)/a1)
        t.mul(&a2, &k);
        ret.a.mul(&a2, &a1);
        ret.b.mul_ui(&t, 2);
        ret.b.add_mut(&y.b);
        ret.c.add(&y.b, &t);
        ret.c.mul_mut(&k);
        ret.c.add_mut(&c2);
        ret.c.fdiv_q_mut(&a1);
        if a1.cmp_mpz(&ctx.l) < 0 {
            proof {
                lemma_equivalent_refl(ret@);
            }
            let same = ret.clone();
            return Some((ret, same));
        }
        let ghost f = ret@;
        let mut r1 = k.copy();
        let mut r2 = a1.copy();
        let mut co1 = Mpz::zero();
        let mut co2 = Mpz::zero();
        let mut m1 = Mpz::zero();
        let mut m2 = Mpz::zero();
        let mut temp = Mpz::zero();
        let mut out = ClassElem { a: Mpz::zero(), b: Mpz::zero(), c: Mpz::zero() };
        // Lehmer partial extended GCD
        partial.xgcd_partial(&mut co2, &mut co1, &mut r2, &mut r1, &ctx.l);
        t.mul(&a2, &r1);
        m1.mul(&m, &co1);
        m1.add_mut(&t);
        m1.tdiv_q_mut(&a1);
        m2.mul(&ss, &r1);
        temp.mul(&c2, &co1);
        m2.sub_mut(&temp);
        m2.tdiv_q_mut(&a1);
        out.a.mul(&r1, &m1);
        temp.mul(&co1, &m2);
        if co1.sgn() < 0 {
            out.a.sub_mut(&temp);
        } else {
            let mut diff = Mpz::zero();
            diff.sub(&temp, &out.a);
            out.a.set(&diff);
        }
        if co1.is_zero() || out.a.is_zero() {
            return None;
        }
        out.b.mul(&out.a, &co2);
        let mut diff = Mpz::zero();
        diff.sub(&t, &out.b);
        out.b.set(&diff);
        out.b.mul_ui_mut(2);
        out.b.fdiv_q_mut(&co1);
        out.b.sub_mut(&y.b);
        temp.mul_ui(&out.a, 2);
        out.b.fdiv_r_mut(&temp);
        out.c.mul(&out.b, &out.b);
        out.c.sub_mut(&ctx.d);
        out.c.fdiv_q_mut(&out.a);
        out.c.fdiv_q_ui_mut(4);
        if out.a.sgn() < 0 {
            out.a.neg_mut();
            out.c.neg_mut();
        }
        // the substitution from the composite: columns (p, -c1) and
        // +-(q, -c2), with p = (r1 + c1*k)/a1, q = (r2 + c2*k)/a1; then a
        // shift of b
        let mut p = Mpz::zero();
        p.mul(&co1, &k);
        p.add_mut(&r1);
        p.fdiv_q_mut(&a1);
        let mut q = Mpz::zero();
        q.mul(&co2, &k);
        q.add_mut(&r2);
        q.fdiv_q_mut(&a1);
        let mut rr = Mpz::zero();
        rr.neg(&co1);
        let mut sv = Mpz::zero();
        sv.neg(&co2);
        let mut det = Mpz::zero();
        det.mul(&p, &sv);
        det.submul(&q, &rr);
        if det.cmp_si(-1) == 0 {
            q.neg_mut();
            sv.neg_mut();
        }
        det.mul(&p, &sv);
        det.submul(&q, &rr);
        if !det.is_one() {
            return None;
        }
        let tf = substitute(&ret, &p, &q, &rr, &sv);
        if tf.a.sgn() == 0 {
            return None;
        }
        let mut shift = Mpz::zero();
        shift.sub(&out.b, &tf.b);
        temp.mul_ui(&tf.a, 2);
        shift.fdiv_q_mut(&temp);
        let one = Mpz::one();
        let zero = Mpz::zero();
        let shifted = substitute(&tf, &one, &shift, &zero, &one);
        if shifted != out {
            return None;
        }
        proof {
            lemma_equivalent_refl(f);
            lemma_equivalent_step(f, f, p@, q@, rr@, sv@);
            assert(1 * 1 - shift@ * 0 == 1) by (nonlinear_arith);
            lemma_equivalent_step(f, tf@, 1, shift@, 0, 1);
        }
        Some((ret, out))
    }

    /// `a^n` by left-to-right square and multiply; a negative `n` raises the
    /// inverse.
    pub fn pow(ctx: &ClassCtx, a: &ClassElem, n: &Mpz) -> (r: ClassElem)
        requires
            ctx.wf(),
            is_element(a@, ctx.d@),
            bit_len(abs(n@) as nat) <= u32::MAX,
        ensures
            is_element(r@, ctx.d@),
            is_power(
                if n@ < 0 {
                    inverse_form(a@)
                } else {
                    a@
                },
                abs(n@) as nat,
                r@,
                ctx.d@,
            ),
    {
        let ghost d = ctx.d@;
        let ghost base0 = if n@ < 0 {
            inverse_form(a@)
        } else {
            a@
        };
        let base = if n.is_neg() {
            proof {
                lemma_inv_element(a@, d);
            }
            Self::inv(a)
        } else {
            a.clone()
        };
        let mut e = Mpz::zero();
        e.abs(n);
        let ghost ev = e@;
        let mut val = Self::id(ctx);
        let bits = e.bit_length();
        let mut i: usize = bits;
        let ghost mut vs: Seq<QForm> = seq![val@];
        proof {
            lemma_prefix_start(ev, bits as nat);
        }
        // the value of the bits of e above position i
        while i > 0
            invariant
                ctx.wf(),
                d == ctx.d@,
                base@ == base0,
                is_element(base@, d),
                is_element(val@, d),
                e@ == ev,
                ev >= 0,
                i <= bits,
                bits == bit_len(ev as nat),
                bits <= u32::MAX,
                binary_trace(base0, ev, bits as nat, vs, d),
                vs.len() == bits - i + 1,
                vs.last() == val@,
            decreases i,
        {
            i = i - 1;
            let ghost sq_from = val@;
            Self::square(ctx, &mut val);
            let ghost sq = val@;
            let bit = Self::bit_of(&e, i as u32);
            if bit {
                val = Self::op(ctx, &val, &base);
            }
            proof {
                let p_new = ev / pow(2, i as nat);
                assert(squares_to(sq_from, sq));
                if bit {
                    assert(times_to(sq, base0, val@));
                }
                assert(power_step(base0, p_new, sq_from, val@));
                let old_vs = vs;
                vs = vs.push(val@);
                assert forall|j: int| 0 <= j < vs.len() - 1 implies #[trigger] power_step(
                    base0,
                    ev / pow(2, (bits - (j + 1)) as nat),
                    vs[j],
                    vs[j + 1],
                ) by {
                    if j < old_vs.len() - 1 {
                        assert(vs[j] == old_vs[j] && vs[j + 1] == old_vs[j + 1]);
                    } else {
                        assert(vs[j] == sq_from && vs[j + 1] == val@);
                        assert((bits - (j + 1)) as nat == i as nat);
                    }
                }
            }
        }
        proof {
            assert(binary_trace(base0, ev, bits as nat, vs, d));
            assert(ev == abs(n@));
        }
        val
    }

    /// Whether bit `i` of `e >= 0` is set.
    fn bit_of(e: &Mpz, i: u32) -> (r: bool)
        requires
            e@ >= 0,
        ensures
            r == ((e@ / pow(2, i as nat)) % 2 == 1),
    {
        let mut q = Mpz::zero();
        q.fdiv_q_2exp(e, i);
        proof {
            lemma_pow_positive(2, i as nat);
        }
        q.odd()
    }
}

/// The composite of `g` with itself reduces to `s`.
pub open spec fn squares_to(g: QForm, s: QForm) -> bool {
    exists|f: QForm| is_composite(g, g, f) && #[trigger] equivalent(f, s)
}

/// The composite of `s` and `a` reduces to `r`.
pub open spec fn times_to(s: QForm, a: QForm, r: QForm) -> bool {
    exists|f: QForm| is_composite(s, a, f) && #[trigger] equivalent(f, r)
}

/// One step of left-to-right powering: `next` is the square of `prev`,
/// times `a` where the new prefix `p` of the exponent is odd.
pub open spec fn power_step(a: QForm, p: int, prev: QForm, next: QForm) -> bool {
    exists|s: QForm|
        #[trigger] squares_to(prev, s) && (p % 2 == 1 ==> times_to(s, a, next)) && (p % 2 == 0
            ==> next == s)
}

/// `vs[j]` stands for `a^(e / 2^(bits - j))`: it starts from the identity,
/// where the prefix is 0, and each step takes in one more bit of `e`.
pub open spec fn binary_trace(a: QForm, e: int, bits: nat, vs: Seq<QForm>, d: int) -> bool {
    &&& vs.len() >= 1
    &&& vs[0] == identity_form(d)
    &&& e / pow(2, bits) == 0
    &&& forall|j: int|
        0 <= j < vs.len() - 1 ==> #[trigger] power_step(
            a,
            e / pow(2, (bits - (j + 1)) as nat),
            vs[j],
            vs[j + 1],
        )
}

/// `r` stands for the class of `a^k`, reached by left-to-right square and
/// multiply over the bits of `k`.
pub open spec fn is_power(a: QForm, k: nat, r: QForm, d: int) -> bool {
    exists|vs: Seq<QForm>|
        #[trigger] binary_trace(a, k as int, bit_len(k), vs, d) && vs.len() == bit_len(k) + 1
            && vs.last() == r
}

/// `e / 2^bits == 0` for the bit length `bits` of `e`.
proof fn lemma_prefix_start(e: int, bits: nat)
    requires
        e >= 0,
        bits == bit_len(e as nat),
    ensures
        e / pow(2, bits) == 0,
{
    lemma_pow_positive(2, bits);
    if e > 0 {
        lemma_bit_len_bounds(e as nat);
    } else {
        lemma_pow0(2);
    }
    lemma_basic_div(e, pow(2, bits));
}


} // verus!
