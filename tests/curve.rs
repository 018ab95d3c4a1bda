use mpc_zk_paillier::curve::{EcWei, Point};
use mpc_zk_paillier::error::CryptoError;
use rand::rngs::StdRng;
use rand::SeedableRng;

fn first_curve() -> EcWei {
    EcWei::new(-2, 7, 17)
}

fn second_curve() -> EcWei {
    EcWei::new(-3, 4, 17)
}

fn identity() -> Point {
    Point::infinity()
}

#[test]
fn point_four_seven_is_not_on_the_curve() {
    // 7² mod 17 = 15 while 4³ − 2·4 + 7 = 63 ≡ 12 (mod 17).
    assert!(!first_curve().is_point(&Point::new(4, 7)));
    assert!(first_curve().is_point(&Point::new(7, 8)));
}

#[test]
fn group_points_of_first_curve() {
    let pts = first_curve().group_points();
    let expected = vec![
        (7, 8), (7, 9), (9, 2), (9, 15), (10, 1), (10, 16), (13, 6), (13, 11), (16, 5), (16, 12),
    ];
    let got: Vec<(u64, u64)> = pts.iter().map(|p| (p.x, p.y)).collect();
    assert_eq!(got, expected);
}

#[test]
fn group_points_of_second_curve() {
    let pts = second_curve().group_points();
    assert_eq!(pts.len(), 14);
    assert_eq!(pts[0], Point::new(0, 2));
    assert_eq!(pts[13], Point::new(15, 11));
}

#[test]
fn sum_of_two_listed_points() {
    let ec = first_curve();
    let pts = ec.group_points();
    assert_eq!(ec.point_add(&pts[5], &pts[2]), Point::new(7, 9));
}

#[test]
fn doubling_and_inverse_pairs() {
    let ec = second_curve();
    let g = Point::new(6, 10);
    assert_eq!(ec.point_add(&g, &g), Point::new(6, 7));
    assert_eq!(ec.point_add(&g, &Point::new(6, 7)), identity());
}

#[test]
fn identity_is_neutral_and_negation_cancels() {
    for ec in [first_curve(), second_curve()] {
        for pt in ec.group_points() {
            assert_eq!(ec.point_add(&pt, &identity()), pt);
            assert_eq!(ec.point_add(&identity(), &pt), pt);
            let neg = Point::new(pt.x, (17 - pt.y) % 17);
            assert_eq!(ec.point_add(&pt, &neg), identity());
        }
    }
}

#[test]
fn order_times_any_point_is_identity() {
    for ec in [first_curve(), second_curve()] {
        let pts = ec.group_points();
        let order = pts.len() as u64 + 1;
        for pt in &pts {
            assert_eq!(ec.scalar_mul(pt, order), identity());
        }
    }
}

#[test]
fn multiples_of_six_ten() {
    let ec = second_curve();
    let g = Point::new(6, 10);
    assert_eq!(ec.scalar_mul(&g, 0), identity());
    assert_eq!(ec.scalar_mul(&g, 1), g);
    assert_eq!(ec.scalar_mul(&g, 2), Point::new(6, 7));
    assert_eq!(ec.scalar_mul(&g, 3), identity());
    assert_eq!(ec.scalar_mul(&g, 4), g);
    assert_eq!(ec.scalar_mul(&g, 5), Point::new(6, 7));
    assert_eq!(ec.scalar_mul(&g, 6), identity());
    assert_eq!(ec.scalar_mul(&g, 7), g);
}

#[test]
fn generators_of_both_curves() {
    let ec = first_curve();
    let pts = ec.group_points();
    assert_eq!(ec.get_base_points(&pts), pts);

    let ec = second_curve();
    let pts = ec.group_points();
    let gens: Vec<(u64, u64)> = ec.get_base_points(&pts).iter().map(|p| (p.x, p.y)).collect();
    assert_eq!(
        gens,
        vec![(1, 6), (1, 11), (9, 3), (9, 14), (12, 8), (12, 9), (15, 6), (15, 11)]
    );
}

#[test]
fn cayley_table_holds_pairwise_sums() {
    let ec = first_curve();
    let pts = ec.group_points();
    let table = ec.cayley_table(&pts);
    assert_eq!(table.len(), pts.len());
    for (i, row) in table.iter().enumerate() {
        assert_eq!(row.len(), pts.len());
        for (j, sum) in row.iter().enumerate() {
            assert_eq!(*sum, ec.point_add(&pts[i], &pts[j]));
        }
    }
    assert_eq!(table[5][2], Point::new(7, 9));
    assert_eq!(table[0][1], identity());
}

#[test]
fn point_text() {
    assert_eq!(Point::new(4, 7).to_string(), "(4, 7)");
    assert_eq!(Point::new(120, 0).to_string(), "(120, 0)");
    assert_eq!(Point::infinity().to_string(), "∞");
}

#[test]
fn contains_checks_field_and_equation() {
    let ec = first_curve();
    assert!(ec.contains(&Point::new(7, 8)));
    assert!(ec.contains(&identity()));
    assert!(!ec.contains(&Point { x: 1, y: 0, infinity: true }));
    assert!(!ec.is_point(&identity()));
    assert!(!ec.contains(&Point::new(4, 7)));
    assert!(!ec.contains(&Point::new(7 + 17, 8)));
}

#[test]
fn key_pair_from_fixed_secret() {
    let ec = first_curve();
    let g = Point::new(7, 8);
    let kp = ec.key_pair_from_secret(&g, 3);
    assert_eq!(kp.sk, 3);
    assert_eq!(kp.pk, Point::new(13, 11));
}

#[test]
fn generated_key_pair_matches_its_secret() {
    let ec = first_curve();
    let g = Point::new(7, 8);
    let mut rng = StdRng::seed_from_u64(11);
    for _ in 0..20 {
        let kp = ec.gen_key_pair(&g, &mut rng).unwrap();
        assert!(1 <= kp.sk && kp.sk <= 10);
        assert_eq!(kp.pk, ec.scalar_mul(&g, kp.sk));
    }
}

#[test]
fn key_pair_on_a_curve_without_points() {
    // y² = x³ + 2x + 2 over the integers modulo 3 has no affine point.
    let ec = EcWei::new(2, 2, 3);
    assert!(ec.group_points().is_empty());
    let mut rng = StdRng::seed_from_u64(1);
    let r = ec.gen_key_pair(&identity(), &mut rng);
    assert_eq!(r.unwrap_err(), CryptoError::InsufficientGroupOrder);
}

#[test]
fn origin_is_an_ordinary_point_when_b_is_zero() {
    // y² = x³ + x over the integers modulo 5 passes through (0, 0).
    let ec = EcWei::new(1, 0, 5);
    let pts = ec.group_points();
    assert_eq!(pts, vec![Point::new(0, 0), Point::new(2, 0), Point::new(3, 0)]);
    assert!(ec.is_point(&Point::new(0, 0)));
    let origin = Point::new(0, 0);
    assert_eq!(ec.point_add(&origin, &origin), identity());
    assert_eq!(ec.point_add(&origin, &identity()), origin);
    let two = Point::new(2, 0);
    let three = Point::new(3, 0);
    assert_eq!(ec.point_add(&ec.point_add(&two, &two), &three), three);
    assert_eq!(ec.point_add(&two, &ec.point_add(&two, &three)), three);
    for pt in &pts {
        assert_eq!(ec.scalar_mul(pt, 4), identity());
    }
}

#[test]
fn multiples_agree_with_repeated_addition_when_b_is_zero() {
    // y² = x³ + 3x over the integers modulo 5: (0, 0) is 5·(2, 2).
    let ec = EcWei::new(3, 0, 5);
    let p = Point::new(2, 2);
    assert_eq!(ec.scalar_mul(&p, 5), Point::new(0, 0));
    let mut sum = identity();
    for k in 0..25u64 {
        assert_eq!(ec.scalar_mul(&p, k), sum);
        sum = ec.point_add(&sum, &p);
    }
    assert_eq!(ec.scalar_mul(&p, 6), Point::new(4, 1));
    assert_eq!(ec.point_add(&ec.scalar_mul(&p, 5), &p), Point::new(4, 1));
    assert_eq!(ec.point_add(&p, &ec.scalar_mul(&p, 5)), Point::new(4, 1));
    assert_eq!(ec.scalar_mul(&ec.scalar_mul(&p, 3), 7), ec.scalar_mul(&p, 21));
    assert_eq!(ec.scalar_mul(&p, 10), identity());
    assert_eq!(ec.group_points().len() + 1, 10);
}
