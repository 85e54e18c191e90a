use classygroup::{LinCongruenceCtx, Mpz, PartialGCDContext, ProbabPrimeResult};

/// A small deterministic generator of 64-bit words.
struct Words(u64);

impl Words {
    fn next(&mut self) -> u64 {
        self.0 = self.0.wrapping_mul(6364136223846793005).wrapping_add(1442695040888963407);
        self.0
    }

    /// A number of `bits` random bits.
    fn below_bits(&mut self, bits: u32) -> Mpz {
        let mut n = Mpz::zero();
        let mut left = bits;
        while left > 0 {
            let take = if left >= 32 { 32 } else { left };
            let word = (self.next() >> 32) & ((1u64 << take) - 1);
            n.mul_ui_mut(1u64 << take);
            let w = Mpz::from_u64(word);
            n.add_mut(&w);
            left -= take;
        }
        n
    }
}

#[test]
fn test_partial_gcd() {
    let context = PartialGCDContext::new();
    let mut words = Words(7);
    let mut c1 = Mpz::zero();
    let mut c2 = Mpz::zero();
    let mut t1 = Mpz::zero();
    let mut t2 = Mpz::zero();

    //Test co2*r1 - co1*r2 = r2_orig
    for _ in 0..1000 {
        let mut g = words.below_bits(200);
        let one = Mpz::one();
        g.add_mut(&one);
        let mut f = Mpz::zero();
        f.fdiv_r(&words.below_bits(256), &g);
        assert!(f.cmp_mpz(&g) < 0);
        let l = words.below_bits(200);

        t2.set(&g);
        t2.abs_mut();

        context.xgcd_partial(&mut c2, &mut c1, &mut g, &mut f, &l);

        t1.mul(&c2, &f);
        t1.submul(&c1, &g);
        t1.abs_mut();

        assert_eq!(t1, t2);
    }
}

#[test]
fn partial_gcd_stops_at_bound() {
    let context = PartialGCDContext::new();
    let mut c1 = Mpz::zero();
    let mut c2 = Mpz::zero();
    let mut r2 = Mpz::from_u64(1_000_000_007);
    let mut r1 = Mpz::from_u64(123_456_789);
    let bound = Mpz::from_u64(1000);
    context.xgcd_partial(&mut c2, &mut c1, &mut r2, &mut r1, &bound);
    assert!(r1.cmp_si(1000) <= 0);
    assert!(r2.cmp_si(1000) > 0);
    let mut t = Mpz::zero();
    t.mul(&c2, &r1);
    t.submul(&c1, &r2);
    t.abs_mut();
    assert_eq!(t, Mpz::from_u64(1_000_000_007));
}

#[test]
fn test_import_export() {
    let mut obj = Mpz::zero();
    obj.set_ui(55);
    let back = Mpz::from_decimal("55").unwrap();
    assert_eq!(back, obj);
    assert!(Mpz::from_decimal("5x5").is_none());
}

#[test]
fn mpz_floor_and_truncating_division() {
    let n = Mpz::from_i64(-7);
    let d = Mpz::from_i64(2);
    let mut q = Mpz::zero();
    q.fdiv_q(&n, &d);
    assert_eq!(q, Mpz::from_i64(-4));
    let mut r = Mpz::zero();
    r.fdiv_r(&n, &d);
    assert_eq!(r, Mpz::from_i64(1));
    let mut t = Mpz::from_i64(-7);
    t.tdiv_q_mut(&d);
    assert_eq!(t, Mpz::from_i64(-3));
}

#[test]
fn mpz_gcdext_and_root() {
    let mut g = Mpz::zero();
    let mut s = Mpz::zero();
    let mut t = Mpz::zero();
    g.gcdext(&mut s, &mut t, &Mpz::from_u64(240), &Mpz::from_u64(46));
    assert_eq!(g, Mpz::from_u64(2));
    let mut check = Mpz::zero();
    check.mul_ui(&s, 240);
    let mut other = Mpz::zero();
    other.mul_ui(&t, 46);
    check.add_mut(&other);
    assert_eq!(check, g);
    let mut r = Mpz::from_u64(10000);
    r.root_mut(4);
    assert_eq!(r, Mpz::from_u64(10));
    let mut r = Mpz::from_u64(9999);
    r.root_mut(4);
    assert_eq!(r, Mpz::from_u64(9));
}

#[test]
fn mpz_bit_length_and_sign() {
    assert_eq!(Mpz::zero().bit_length(), 0);
    assert_eq!(Mpz::from_i64(-4).bit_length(), 3);
    assert_eq!(Mpz::from_i64(-4).sgn(), -1);
    assert!(Mpz::from_u64(7).odd());
    assert!(!Mpz::from_u64(8).odd());
    assert_eq!(Mpz::from_i64(-5).cmpabs(&Mpz::from_i64(4)), 1);
    let mut x = Mpz::zero();
    x.fdiv_q_2exp(&Mpz::from_u64(1025), 3);
    assert_eq!(x, Mpz::from_u64(128));
}

#[test]
fn linear_congruence_solutions() {
    let ctx = LinCongruenceCtx::new();
    let mut mu = Mpz::zero();
    let mut v = Mpz::zero();
    // 3*mu == 2 (mod 7): mu = 3, period 7
    assert!(ctx.solve_linear_congruence(&mut mu, &mut v, &Mpz::from_u64(3), &Mpz::from_u64(2), &Mpz::from_u64(7)));
    assert_eq!(mu, Mpz::from_u64(3));
    assert_eq!(v, Mpz::from_u64(7));
    // 4*mu == 6 (mod 10): mu = 4, period 5
    assert!(ctx.solve_linear_congruence(&mut mu, &mut v, &Mpz::from_u64(4), &Mpz::from_u64(6), &Mpz::from_u64(10)));
    assert_eq!(mu, Mpz::from_u64(4));
    assert_eq!(v, Mpz::from_u64(5));
    // 33*mu == 7 (mod 143) has no solution
    assert!(!ctx.solve_linear_congruence(&mut mu, &mut v, &Mpz::from_u64(33), &Mpz::from_u64(7), &Mpz::from_u64(143)));
}

#[test]
fn primality_test_results() {
    assert_eq!(Mpz::from_u64(163 * 4003).probab_prime(30), ProbabPrimeResult::NotPrime);
    assert_eq!(Mpz::from_u64(817_504_243).probab_prime(30), ProbabPrimeResult::Prime);
    assert_eq!(Mpz::from_u64(16_412_292_043_871_650_369).probab_prime(30), ProbabPrimeResult::ProbablyPrime);
    assert!(Mpz::from_u64(817_504_243).is_prime(30));
    assert!(!Mpz::from_u64(1).is_prime(30));
    assert!(!Mpz::from_i64(-7).is_prime(30));
}

#[test]
fn partial_gcd_takes_no_step_below_bound() {
    let context = PartialGCDContext::new();
    let mut c1 = Mpz::from_u64(5);
    let mut c2 = Mpz::from_u64(5);
    let mut r2 = Mpz::from_u64(1000);
    let mut r1 = Mpz::from_u64(7);
    context.xgcd_partial(&mut c2, &mut c1, &mut r2, &mut r1, &Mpz::from_u64(10));
    assert_eq!(c1, Mpz::from_i64(-1));
    assert_eq!(c2, Mpz::zero());
    assert_eq!(r1, Mpz::from_u64(7));
    assert_eq!(r2, Mpz::from_u64(1000));
}

#[test]
fn partial_gcd_remainders_follow_cofactors() {
    // r == -c * r1_orig (mod r2_orig) for both final remainders
    let context = PartialGCDContext::new();
    let mut words = Words(11);
    for _ in 0..200 {
        let mut g = words.below_bits(300);
        let one = Mpz::one();
        g.add_mut(&one);
        let mut f = Mpz::zero();
        f.fdiv_r(&words.below_bits(320), &g);
        let l = words.below_bits(150);
        let (g0, f0) = (g.clone(), f.clone());
        let mut c1 = Mpz::zero();
        let mut c2 = Mpz::zero();
        context.xgcd_partial(&mut c2, &mut c1, &mut g, &mut f, &l);
        for (r, c) in [(&f, &c1), (&g, &c2)] {
            let mut t = r.clone();
            t.add_mul(c, &f0);
            let mut rem = Mpz::zero();
            rem.fdiv_r(&t, &g0);
            assert!(rem.is_zero());
        }
    }
}

#[test]
fn mpz_ceiling_division_and_modulo() {
    let mut q = Mpz::zero();
    q.cdiv_q(&Mpz::from_i64(7), &Mpz::from_i64(2));
    assert_eq!(q, Mpz::from_i64(4));
    let mut r = Mpz::zero();
    r.cdiv_r(&Mpz::from_i64(7), &Mpz::from_i64(2));
    assert_eq!(r, Mpz::from_i64(-1));
    let mut m = Mpz::zero();
    m.modulo(&Mpz::from_i64(-7), &Mpz::from_i64(-3));
    assert_eq!(m, Mpz::from_i64(2));
    let mut m2 = Mpz::from_i64(23);
    m2.modulo_mut(&Mpz::from_i64(10));
    assert_eq!(m2, Mpz::from_i64(3));
    // the remainder of ceiling division, as a magnitude
    assert_eq!(Mpz::from_i64(100).crem_u16(3), 2);
    assert_eq!(Mpz::from_i64(-100).crem_u16(3), 1);
}

#[test]
fn mpz_words_bytes_and_shifts() {
    let mut x = Mpz::from_u64(10);
    x.add_ui_mut(5);
    assert_eq!(x, Mpz::from_u64(15));
    x.sub_ui_mut(20);
    assert_eq!(x, Mpz::from_i64(-5));
    let mut t = Mpz::zero();
    t.tdiv_q_2exp(&Mpz::from_i64(-7), 1);
    assert_eq!(t, Mpz::from_i64(-3));
    t.tdiv_q_2exp(&Mpz::from_i64(7), 1);
    assert_eq!(t, Mpz::from_i64(3));
    assert_eq!(Mpz::from_u64(u64::MAX).to_u64(), Some(u64::MAX));
    let mut big = Mpz::from_u64(u64::MAX);
    big.add_ui_mut(1);
    assert_eq!(big.to_u64(), None);
    assert_eq!(Mpz::from_i64(-1).to_u64(), None);
    assert_eq!(Mpz::from_bytes(&[0x01, 0x00, 0x02]), Mpz::from_u64(65538));
    assert_eq!(Mpz::from_bytes(&[]), Mpz::zero());
    let mut s = Mpz::from_u64(100);
    s.sub_mul(&Mpz::from_u64(3), &Mpz::from_u64(7));
    assert_eq!(s, Mpz::from_u64(79));
}

#[test]
fn linear_congruence_least_solution() {
    let ctx = LinCongruenceCtx::new();
    let mut mu = Mpz::zero();
    let mut v = Mpz::zero();
    // 6*mu == 4 (mod 10): solutions 4, 9 (mod 10); the least is 4, period 5
    assert!(ctx.solve_linear_congruence(&mut mu, &mut v, &Mpz::from_u64(6), &Mpz::from_u64(4), &Mpz::from_u64(10)));
    assert_eq!(mu, Mpz::from_u64(4));
    assert_eq!(v, Mpz::from_u64(5));
}

#[test]
fn partial_gcd_stops_just_below_bound() {
    let context = PartialGCDContext::new();
    let mut words = Words(5);
    for _ in 0..100 {
        let mut g = words.below_bits(256);
        let one = Mpz::one();
        g.add_mut(&one);
        let mut f = Mpz::zero();
        f.fdiv_r(&words.below_bits(300), &g);
        let l = words.below_bits(100);
        let mut c1 = Mpz::zero();
        let mut c2 = Mpz::zero();
        let starts_above = f.cmp_mpz(&l) > 0;
        context.xgcd_partial(&mut c2, &mut c1, &mut g, &mut f, &l);
        assert!(f.cmp_mpz(&l) <= 0);
        if starts_above {
            assert!(g.cmp_mpz(&l) > 0);
        }
    }
}
