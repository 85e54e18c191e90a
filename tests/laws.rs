use classygroup::{ClassCtx, ClassElem, ClassGroup, Mpz, mpz_get_si_2exp, signed_shift, test_reduction};

fn num(s: &str) -> Mpz {
    Mpz::from_decimal(s).unwrap()
}

/// A small group: discriminant -9431, which is 1 mod 8.
fn small_ctx() -> ClassCtx {
    ClassCtx::from_discriminant(&Mpz::from_i64(-9431)).unwrap()
}

fn powers(ctx: &ClassCtx, n: usize) -> Vec<ClassElem> {
    let g = ClassGroup::unknown_order_elem(ctx);
    let mut out = vec![ClassGroup::id(ctx)];
    for i in 0..n {
        let next = ClassGroup::op(ctx, &out[i], &g);
        out.push(next);
    }
    out
}

#[test]
fn context_rejects_bad_discriminants() {
    assert!(ClassCtx::from_discriminant(&Mpz::from_i64(-9431)).is_some());
    assert!(ClassCtx::from_discriminant(&Mpz::from_i64(-9429)).is_none());
    assert!(ClassCtx::from_discriminant(&Mpz::from_i64(5)).is_none());
    assert!(ClassCtx::from_discriminant(&Mpz::zero()).is_none());
    let ctx = small_ctx();
    // floor(9431^(1/4)) == 9
    assert_eq!(ctx.l, Mpz::from_u64(9));
}

#[test]
fn identity_of_small_group() {
    let ctx = small_ctx();
    let id = ClassGroup::id(&ctx);
    assert_eq!(id, ClassElem::new(Mpz::one(), Mpz::one(), Mpz::from_u64(2358)));
}

#[test]
fn generator_of_small_group() {
    let ctx = small_ctx();
    let g = ClassGroup::unknown_order_elem(&ctx);
    // (2, 1, 1179) is already reduced
    assert_eq!(g, ClassElem::new(Mpz::from_u64(2), Mpz::one(), Mpz::from_u64(1179)));
}

#[test]
fn op_with_identity_keeps_generator() {
    let ctx = small_ctx();
    let g = ClassGroup::unknown_order_elem(&ctx);
    assert_eq!(ClassGroup::op(&ctx, &g, &ClassGroup::id(&ctx)), g);
}

#[test]
fn associativity_and_commutativity() {
    let ctx = small_ctx();
    let ps = powers(&ctx, 12);
    for x in &ps {
        for y in &ps {
            let xy = ClassGroup::op(&ctx, x, y);
            assert_eq!(xy, ClassGroup::op(&ctx, y, x));
            for z in ps.iter().step_by(5) {
                let left = ClassGroup::op(&ctx, &xy, z);
                let yz = ClassGroup::op(&ctx, y, z);
                assert_eq!(left, ClassGroup::op(&ctx, x, &yz));
            }
        }
    }
}

#[test]
fn nucomp_agrees_with_op() {
    for ctx in [small_ctx(), big_ctx()] {
        let ps = powers(&ctx, 20);
        for x in &ps {
            for y in ps.iter().step_by(3) {
                assert_eq!(ClassGroup::nucomp(&ctx, x, y), ClassGroup::op(&ctx, x, y));
            }
        }
    }
}

#[test]
fn square_agrees_with_op() {
    for ctx in [small_ctx(), big_ctx()] {
        for x in powers(&ctx, 30) {
            let mut s = x.clone();
            ClassGroup::square(&ctx, &mut s);
            assert_eq!(s, ClassGroup::op(&ctx, &x, &x));
        }
    }
}

#[test]
fn pow_negative_is_inverse_of_pow() {
    let ctx = big_ctx();
    let g = ClassGroup::unknown_order_elem(&ctx);
    for n in [1i64, 2, 7, 64, 1001] {
        let pos = ClassGroup::pow(&ctx, &g, &Mpz::from_i64(n));
        let neg = ClassGroup::pow(&ctx, &g, &Mpz::from_i64(-n));
        assert_eq!(neg, ClassGroup::inv(&pos));
        assert_eq!(ClassGroup::op(&ctx, &pos, &neg), ClassGroup::id(&ctx));
    }
    assert_eq!(ClassGroup::pow(&ctx, &g, &Mpz::zero()), ClassGroup::id(&ctx));
}

#[test]
fn inverse_of_ambiguous_forms_is_itself() {
    let ctx = small_ctx();
    // b == a
    let x = ClassElem::new(Mpz::from_u64(1), Mpz::from_u64(1), Mpz::from_u64(2358));
    assert!(ClassGroup::validate(&ctx, &x.a, &x.b, &x.c));
    assert_eq!(ClassGroup::inv(&x), x);
    let y = ClassElem::new(Mpz::from_u64(5), Mpz::from_u64(3), Mpz::from_u64(472));
    assert!(ClassGroup::validate(&ctx, &y.a, &y.b, &y.c));
    let y_inv = ClassGroup::inv(&y);
    assert_eq!(y_inv, ClassElem::new(Mpz::from_u64(5), Mpz::from_i64(-3), Mpz::from_u64(472)));
    assert_eq!(ClassGroup::inv(&y_inv), y);
}

#[test]
fn reduce_twice_is_reduce_once() {
    let mut x = ClassElem::new(Mpz::from_u64(472), Mpz::from_u64(3), Mpz::from_u64(5));
    ClassGroup::reduce(&mut x);
    assert_eq!(x, ClassElem::new(Mpz::from_u64(5), Mpz::from_i64(-3), Mpz::from_u64(472)));
    let once = x.clone();
    ClassGroup::reduce(&mut x);
    assert_eq!(x, once);
}

#[test]
fn reduce_turns_b_minus_a_into_a() {
    // (3, -3, 787) is not normal; its reduced form is (3, 3, 787)
    let mut x = ClassElem::new(Mpz::from_u64(3), Mpz::from_i64(-3), Mpz::from_u64(787));
    ClassGroup::reduce(&mut x);
    assert_eq!(x, ClassElem::new(Mpz::from_u64(3), Mpz::from_u64(3), Mpz::from_u64(787)));
}

#[test]
fn elem_reduces_and_rejects_nothing_valid() {
    let ctx = small_ctx();
    let e = ClassGroup::elem(&ctx, (Mpz::from_u64(472), Mpz::from_u64(3), Mpz::from_u64(5)));
    assert_eq!(e, ClassElem::new(Mpz::from_u64(5), Mpz::from_i64(-3), Mpz::from_u64(472)));
    assert!(!ClassGroup::validate(&ctx, &Mpz::from_u64(1), &Mpz::from_u64(2), &Mpz::from_u64(3)));
}

#[test]
fn reduction_test_orders_the_form() {
    let mut x = ClassElem::new(Mpz::from_u64(9), Mpz::from_u64(2), Mpz::from_u64(4));
    assert!(test_reduction(&mut x));
    assert_eq!(x, ClassElem::new(Mpz::from_u64(4), Mpz::from_i64(-2), Mpz::from_u64(9)));
    let mut y = ClassElem::new(Mpz::from_u64(9), Mpz::from_u64(20), Mpz::from_u64(40));
    assert!(!test_reduction(&mut y));
    assert_eq!(y, ClassElem::new(Mpz::from_u64(9), Mpz::from_u64(20), Mpz::from_u64(40)));
}

#[test]
fn word_helpers() {
    assert_eq!(signed_shift(1, 3), 8);
    assert_eq!(signed_shift(8, -3), 1);
    assert_eq!(signed_shift(8, -64), 0);
    let (m, e) = mpz_get_si_2exp(&Mpz::from_i64(-5));
    assert_eq!(e, 3);
    assert_eq!(m, -(5i64 << 60));
    let (m, e) = mpz_get_si_2exp(&num("340282366920938463463374607431768211457"));
    assert_eq!(e, 129);
    assert_eq!(m, 1i64 << 62);
}

#[test]
fn discriminant_of_fixture() {
    let d = classygroup::discriminant(&Mpz::from_u64(2), &Mpz::one(), &Mpz::from_u64(1179));
    assert_eq!(d, Mpz::from_i64(-9431));
}

fn big_ctx() -> ClassCtx {
    let c = num("19135043146754702466933535947700509509683047735103167439198117911126500023332446530136407244\
268818886844950990589400824048541137030123517295048625578863052039394052606960429510076477727\
812619793559333896857655440664448190570209733309248852860771133554929587999582285331513410741\
679548532925359795754799072731031327175516868367484717873943724678975890638662600637655379895\
797691446827331865910685793896910463236233398285859677535633644394859647446063344540995395360\
815557919878168193309083573295900545539758915028677094752412489256178770608972743880695597825\
16229851064188563419476497892884550353389340326220747256139");
    let d = classygroup::discriminant(&Mpz::from_u64(4), &Mpz::one(), &c);
    ClassCtx::from_discriminant(&d).unwrap()
}

#[test]
fn pow_matches_repeated_composition_small_group() {
    let ctx = small_ctx();
    let g = ClassGroup::unknown_order_elem(&ctx);
    let mut acc = ClassGroup::id(&ctx);
    for n in 0..60i64 {
        assert_eq!(ClassGroup::pow(&ctx, &g, &Mpz::from_i64(n)), acc);
        assert_eq!(ClassGroup::pow(&ctx, &g, &Mpz::from_i64(-n)), ClassGroup::inv(&acc));
        acc = ClassGroup::op(&ctx, &acc, &g);
    }
}
