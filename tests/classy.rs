use classygroup::{ClassCtx, ClassElem, ClassGroup, Mpz};
use std::collections::hash_map::DefaultHasher;
use std::hash::{Hash, Hasher};

const C_16_105: &str = "47837607866886756167333839869251273774207619337757918597995294777816250058331116325341018110\
672047217112377476473502060121352842575308793237621563947157630098485131517401073775191194319\
531549483898334742144138601661120476425524333273122132151927833887323969998955713328783526854\
198871332313399489386997681827578317938792170918711794684859311697439726596656501594138449739\
494228617068329664776714484742276158090583495714649193839084110987149118615158361352488488402\
038894799695420483272708933239751363849397287571692736881031223140446926522431859701738994562\
9057462766047140854869124473221137588347335081555186814207";

const C_16_9: &str = "47837607866886756167333839869251273774207619337757918597995294777816250058331116325341018110\
672047217112377476473502060121352842575308793237621563947157630098485131517401073775191194319\
531549483898334742144138601661120476425524333273122132151927833887323969998955713328783526854\
198871332313399489386997681827578317938792170918711794684859311697439726596656501594138449739\
494228617068329664776714484742276158090583495714649193839084110987149118615158361352488488402\
038894799695420483272708933239751363849397287571692736881031223140446926522431859701738994562\
9057462766047140854869124473221137588347335081555186814036";

const C_4_1: &str = "19135043146754702466933535947700509509683047735103167439198117911126500023332446530136407244\
268818886844950990589400824048541137030123517295048625578863052039394052606960429510076477727\
812619793559333896857655440664448190570209733309248852860771133554929587999582285331513410741\
679548532925359795754799072731031327175516868367484717873943724678975890638662600637655379895\
797691446827331865910685793896910463236233398285859677535633644394859647446063344540995395360\
815557919878168193309083573295900545539758915028677094752412489256178770608972743880695597825\
16229851064188563419476497892884550353389340326220747256139";

const C_64_9: &str = "11959401966721689041833459967312818443551904834439479649498823694454062514582779081335254527\
668011804278094369118375515030338210643827198309405390986789407524621282879350268443797798579\
882887370974583685536034650415280119106381083318280533037981958471830992499738928332195881713\
549717833078349872346749420456894579484698042729677948671214827924359931649164125398534612434\
873557154267082416194178621185569039522645873928662298459771027746787279653789590338122122100\
509723699923855120818177233309937840962349321892923184220257805785111731630607964925434748640\
7264365691511785213717281118305284397086833770388796703509";

fn num(s: &str) -> Mpz {
    Mpz::from_decimal(s).unwrap()
}

// Makes a class elem tuple but does not reduce.
fn construct_raw_elem_from_strings(a: &str, b: &str, c: &str) -> ClassElem {
    ClassElem::new(num(a), num(b), num(c))
}

/// The group of the fixtures: the discriminant of the form `(4, 1, C_4_1)`.
fn ctx() -> ClassCtx {
    let d = classygroup::discriminant(&num("4"), &num("1"), &num(C_4_1));
    ClassCtx::from_discriminant(&d).unwrap()
}

fn hash_of(x: &ClassElem) -> u64 {
    let mut h = DefaultHasher::new();
    x.hash(&mut h);
    h.finish()
}

#[test]
fn test_elem_from() {
    let ctx = ctx();
    let reduced_elem = ClassGroup::elem(&ctx, (num("16"), num("105"), num(C_16_105)));
    let also_reduced_elem = ClassGroup::elem(&ctx, (num("16"), num("9"), num(C_16_9)));
    assert_eq!(reduced_elem, also_reduced_elem);
}

#[test]
fn test_equality() {
    let mut not_reduced = construct_raw_elem_from_strings("16", "105", C_16_105);
    let reduced_ground_truth = construct_raw_elem_from_strings("16", "9", C_16_9);
    let diff_elem = construct_raw_elem_from_strings("4", "1", C_4_1);

    assert!(not_reduced != reduced_ground_truth);
    assert!(not_reduced == not_reduced.clone());
    assert!(reduced_ground_truth == reduced_ground_truth.clone());
    assert!(not_reduced != diff_elem);
    assert!(reduced_ground_truth != diff_elem);

    ClassGroup::reduce(&mut not_reduced);
    assert!(not_reduced == reduced_ground_truth);
}

#[test]
fn test_hash() {
    let mut not_reduced = construct_raw_elem_from_strings("16", "105", C_16_105);
    let reduced_ground_truth = construct_raw_elem_from_strings("16", "9", C_16_9);
    let diff_elem = construct_raw_elem_from_strings("4", "1", C_4_1);

    assert!(hash_of(&not_reduced) != hash_of(&reduced_ground_truth));
    assert!(hash_of(&not_reduced) == hash_of(&not_reduced));
    assert!(hash_of(&reduced_ground_truth) == hash_of(&reduced_ground_truth));

    ClassGroup::reduce(&mut not_reduced);
    assert!(hash_of(&not_reduced) == hash_of(&reduced_ground_truth));
    assert!(hash_of(&not_reduced) != hash_of(&diff_elem));
}

#[test]
fn test_reduce_basic() {
    let mut to_reduce = construct_raw_elem_from_strings(
        "59162244921619725812008939143220718157267937427074598447911241410131470159247784852210767449\
675610037288729551814191198624164179866076352187405442496568188988272422133088755036699145362\
385840772236403043664778415471196678638241785773530531198720497580622741709880533724904220122\
358854068046553219863419609777498761804625479650772123754523807001976654588225908928022367436\
8",
        "18760351095004839755193532164856605650590306627169248964100884295652838905828158941233738613\
175821849253748329102319504958410190952820220503570113920576542676928659211807590199941027958\
195895385446372444261885022800653454209101497963588809819572703579484085278913354621371362285\
341138299691587953249270188429393417132110841259813122945626515477865766896056280729710478647\
13",
        "14872270891432803054791175727694631095755964943358394411314110783404577714102170379700365256\
599679049493824862742803590079461712691146098397470840896560034332315858221821103076776907123\
277315116632337385101204055232891361405428635972040596205450316747012080794838691280547894128\
246741601088755087359234554141346980837292342320288111397175220296098629890108459305643419353\
36",
    );

    let reduced_ground_truth = construct_raw_elem_from_strings(
        "26888935961824081232597112540509824504614070059776273347136888921115497522070287009841688662\
983066376019079593372296556420848446780369918809384119124783870290778875424468497961559643807\
918398860928578027038014112641529893817109240852544158309292025321122680747989987560029531021\
808743313150630063377037854944",
        "14529985196481999393995154363327100184407232892559561136140792409262328867440167480822808496\
853924547751298342980606034124112579835255733824790020119078588372593288210628255956605240171\
744703418426092073347584357826862813733154338737148962212641444735717023402201569115323580814\
54099903972209626147819759991",
        "28467266502267127591420289007165819749231433586093061478772560429058231137856046130384492811\
816456933286039468940950129263300933723839212086399375780796041634531383342902918719073416087\
614456845205980227091403964285870107268917183244016635907926846271829374679124848388403486656\
1564478239095738726823372184204",
    );

    let already_reduced = reduced_ground_truth.clone();
    assert_eq!(already_reduced, reduced_ground_truth);

    assert_ne!(to_reduce, reduced_ground_truth);
    ClassGroup::reduce(&mut to_reduce);
    assert_eq!(to_reduce, reduced_ground_truth);
}

#[test]
fn test_normalize_basic() {
    let mut unnorm_a = num("16");
    let mut unnorm_b = num("105");
    let mut unnorm_c = num(C_16_105);

    let norm_a = num("16");
    let norm_b = num("9");
    let norm_c = num(C_16_9);

    ClassGroup::normalize(&mut unnorm_a, &mut unnorm_b, &mut unnorm_c);
    assert_eq!((norm_a, norm_b, norm_c), (unnorm_a, unnorm_b, unnorm_c));
}

#[test]
fn test_discriminant_across_ops() {
    let ctx = ctx();
    let id = ClassGroup::id(&ctx);
    let g1 = ClassGroup::unknown_order_elem(&ctx);
    let g2 = ClassGroup::op(&ctx, &g1, &g1);
    let g3 = ClassGroup::op(&ctx, &id, &g2);
    let g3_inv = ClassGroup::inv(&g3);

    assert!(ClassGroup::validate(&ctx, &id.a, &id.b, &id.c));
    assert!(ClassGroup::validate(&ctx, &g1.a, &g1.b, &g1.c));
    assert!(ClassGroup::validate(&ctx, &g2.a, &g2.b, &g2.c));
    assert!(ClassGroup::validate(&ctx, &g3.a, &g3.b, &g3.c));
    assert!(ClassGroup::validate(&ctx, &g3_inv.a, &g3_inv.b, &g3_inv.c));
}

#[test]
fn test_op_single() {
    let ctx = ctx();
    let a = construct_raw_elem_from_strings("4", "1", C_4_1);
    let b = construct_raw_elem_from_strings(
        "16",
        "41",
        "47837607866886756167333839869251273774207619337757918597995294777816250058331116325341018110\
672047217112377476473502060121352842575308793237621563947157630098485131517401073775191194319\
531549483898334742144138601661120476425524333273122132151927833887323969998955713328783526854\
198871332313399489386997681827578317938792170918711794684859311697439726596656501594138449739\
494228617068329664776714484742276158090583495714649193839084110987149118615158361352488488402\
038894799695420483272708933239751363849397287571692736881031223140446926522431859701738994562\
9057462766047140854869124473221137588347335081555186814061",
    );
    let ground_truth = construct_raw_elem_from_strings("64", "9", C_64_9);
    assert_eq!(ClassGroup::op(&ctx, &a, &b), ground_truth);
}

#[test]
fn test_op_alternating() {
    let ctx = ctx();
    let g_anchor = ClassGroup::unknown_order_elem(&ctx);
    let mut g = ClassGroup::id(&ctx);
    let mut g_star = ClassGroup::id(&ctx);

    // g
    g = ClassGroup::op(&ctx, &g_anchor, &g);

    // g^2, g^* = g^2
    g = ClassGroup::op(&ctx, &g_anchor, &g);
    g_star = ClassGroup::op(&ctx, &g, &g_star);

    // g^3
    g = ClassGroup::op(&ctx, &g_anchor, &g);

    // g^4, g^* = g^2 * g^4 = g^6
    g = ClassGroup::op(&ctx, &g_anchor, &g);
    g_star = ClassGroup::op(&ctx, &g, &g_star);

    let ground_truth = construct_raw_elem_from_strings("64", "9", C_64_9);
    assert_eq!(ground_truth, g_star);
}

#[test]
fn test_op_complex() {
    // 1. Take g^100, g^200, ..., g^1000.
    // 2. Compute g^* = g^100 * ... * g^1000.
    // 3. For each of g^100, g^200, ..., g^1000 compute the inverse of that element and assert that
    //    g^* * current_inverse = product of g^100, g^200, ..., g^1000 without the inversed-out
    //    element.
    let ctx = ctx();
    let g_anchor = ClassGroup::unknown_order_elem(&ctx);
    let mut g = ClassGroup::id(&ctx);

    let mut gs = vec![];
    let mut gs_invs = vec![];

    let mut g_star = ClassGroup::id(&ctx);
    for i in 1..=1000 {
        g = ClassGroup::op(&ctx, &g_anchor, &g);
        assert!(ClassGroup::validate(&ctx, &g.a, &g.b, &g.c));
        if i % 100 == 0 {
            gs.push(g.clone());
            gs_invs.push(ClassGroup::inv(&g));
            g_star = ClassGroup::op(&ctx, &g, &g_star);
            assert!(ClassGroup::validate(&ctx, &g.a, &g.b, &g.c));
        }
    }

    let elems_n_invs = gs.iter().zip(gs_invs.iter());
    for (g_elem, g_inv) in elems_n_invs {
        assert!(ClassGroup::validate(&ctx, &g_elem.a, &g_elem.b, &g_elem.c));
        assert!(ClassGroup::validate(&ctx, &g_inv.a, &g_inv.b, &g_inv.c));
        let mut curr_prod = ClassGroup::id(&ctx);
        for elem in &gs {
            if elem != g_elem {
                curr_prod = ClassGroup::op(&ctx, &curr_prod, &elem);
                assert!(ClassGroup::validate(&ctx, &curr_prod.a, &curr_prod.b, &curr_prod.c));
            }
        }
        assert_eq!(ClassGroup::id(&ctx), ClassGroup::op(&ctx, &g_inv, &g_elem));
        assert_eq!(curr_prod, ClassGroup::op(&ctx, &g_inv, &g_star));
    }
}

#[test]
fn test_id_basic() {
    let ctx = ctx();
    let g = ClassGroup::unknown_order_elem(&ctx);
    let id = ClassGroup::id(&ctx);
    assert_eq!(g, ClassGroup::op(&ctx, &g, &id));
    assert_eq!(g, ClassGroup::op(&ctx, &id, &g));
    assert_eq!(id, ClassGroup::op(&ctx, &id, &id));
}

#[test]
fn test_id_repeated() {
    let ctx = ctx();
    let mut id = ClassGroup::id(&ctx);
    let g_anchor = ClassGroup::unknown_order_elem(&ctx);
    let mut g = ClassGroup::unknown_order_elem(&ctx);
    for _ in 0..1000 {
        id = ClassGroup::op(&ctx, &id, &id);
        assert_eq!(id, ClassGroup::id(&ctx));
        g = ClassGroup::op(&ctx, &g, &ClassGroup::id(&ctx));
        assert_eq!(g, g_anchor);
    }
}

#[test]
fn test_inv() {
    let ctx = ctx();
    let id = ClassGroup::id(&ctx);
    let g_anchor = ClassGroup::unknown_order_elem(&ctx);
    let mut g = ClassGroup::unknown_order_elem(&ctx);

    for _ in 0..1000 {
        g = ClassGroup::op(&ctx, &g, &g_anchor);
        let g_inv = ClassGroup::inv(&g);
        assert_eq!(id, ClassGroup::op(&ctx, &g_inv, &g));
        assert_eq!(id, ClassGroup::op(&ctx, &g, &g_inv));
        assert_eq!(g, ClassGroup::inv(&g_inv));
    }
}

#[test]
fn test_exp_basic() {
    let ctx = ctx();
    let g_anchor = ClassGroup::unknown_order_elem(&ctx);
    let mut g = ClassGroup::id(&ctx);

    for i in 1..=1000u64 {
        g = ClassGroup::op(&ctx, &g, &g_anchor);
        assert_eq!(&g, &ClassGroup::pow(&ctx, &g_anchor, &Mpz::from_u64(i)));
    }
}

#[test]
fn test_square_basic() {
    let ctx = ctx();
    let g = ClassGroup::unknown_order_elem(&ctx);
    let mut g4 = ClassGroup::id(&ctx);

    // g^4
    for _ in 0..4 {
        g4 = ClassGroup::op(&ctx, &g, &g4);
    }

    // g^2
    let mut g2 = g.clone();
    // g^4
    ClassGroup::square(&ctx, &mut g2);
    ClassGroup::square(&ctx, &mut g2);

    assert_eq!(&g2, &g4);
}

#[test]
fn test_square_repeated() {
    let ctx = ctx();
    let mut g = ClassGroup::unknown_order_elem(&ctx);
    let g_ = g.clone();

    for i in 0..12 {
        ClassGroup::square(&ctx, &mut g);
        let mut base = ClassGroup::id(&ctx);

        for _ in 0..(2i32.pow(i + 1)) {
            base = ClassGroup::op(&ctx, &g_, &base);
        }

        assert_eq!(g, base);
    }
}
