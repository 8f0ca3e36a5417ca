use rusty_diffie_hellman::ec::ec_errors::ECError;
use rusty_diffie_hellman::ec::ec_point::ECPoint;
use rusty_diffie_hellman::felt::felt::Felt;

#[test]
fn test_point_on_curve() {
    let a = Felt::new(1, 61).neg();
    let b = Felt::new(0, 61);
    let x = Felt::new(8, 61);
    let y = Felt::new(4, 61);

    let point = ECPoint::new(x, y, a, b);
    assert!(point.is_ok());
}

#[test]
fn test_another_point_on_curve() {
    let a = Felt::new(1, 61).neg();
    let b = Felt::new(0, 61);
    let x = Felt::new(24, 61);
    let y = Felt::new(40, 61);

    let point = ECPoint::new(x, y, a, b);
    assert!(point.is_ok());
}

#[test]
fn test_point_not_on_curve() {
    let modulus = 61;
    let a = Felt::new(1, modulus).neg();
    let b = Felt::new(0, modulus);
    let x = Felt::new(4, modulus);
    let y = Felt::new(4, modulus);

    let point = ECPoint::new(x, y, a, b);
    assert!(point.is_err());
}

#[test]
fn test_point_not_on_curve_error_payload() {
    let modulus = 61;
    let a = Felt::new(1, modulus).neg();
    let b = Felt::new(0, modulus);
    let x = Felt::new(4, modulus);
    let y = Felt::new(4, modulus);

    let point = ECPoint::new(x, y, a, b);
    assert_eq!(point.unwrap_err(), ECError::PointNotOnCurve(4, 4, 60, 0));
}

#[test]
fn test_add_two_points() {
    let modulus = 37;
    let a = Felt::new(3, modulus);
    let b = Felt::new(7, modulus);
    let x1 = Felt::new(18, modulus);
    let y1 = Felt::new(26, modulus);
    let x2 = Felt::new(24, modulus);
    let y2 = Felt::new(19, modulus);

    let p1 = ECPoint::new(x1, y1, a, b).unwrap();
    let p2 = ECPoint::new(x2, y2, a, b).unwrap();

    let p3 = p1.add(&p2).unwrap();
    assert_eq!(
        p3,
        ECPoint::new(Felt::new(20, modulus), Felt::new(1, modulus), a, b).unwrap()
    );
}

#[test]
fn test_add_point_with_its_addition_inverse() {
    let modulus = 37;
    let a = Felt::new(3, modulus);
    let b = Felt::new(7, modulus);
    let x = Felt::new(18, modulus);
    let y = Felt::new(26, modulus);

    let p1 = ECPoint::new(x, y, a, b).unwrap();
    let p2 = ECPoint::new(x, y.neg(), a, b).unwrap();

    let p3 = p1.add(&p2).unwrap();
    assert_eq!(p3, ECPoint::infinity(a, b));
}

#[test]
fn test_add_point_with_itself() {
    let modulus = 101;
    let a = Felt::new(5, modulus);
    let b = Felt::new(13, modulus);
    let x = Felt::new(24, modulus);
    let y = Felt::new(25, modulus);

    let p1 = ECPoint::new(x, y, a, b).unwrap();

    let p3 = p1.add(&p1).unwrap();
    assert_eq!(
        p3,
        ECPoint::new(Felt::new(67, modulus), Felt::new(38, modulus), a, b).unwrap()
    );
}

#[test]
fn test_add_point_with_infinity() {
    let modulus = 37;
    let a = Felt::new(3, modulus);
    let b = Felt::new(7, modulus);
    let x = Felt::new(18, modulus);
    let y = Felt::new(26, modulus);

    let p1 = ECPoint::new(x, y, a, b).unwrap();
    let p2 = ECPoint::infinity(a, b);

    let p3 = p1.add(&p2).unwrap();
    assert_eq!(p3, p1);
}

#[test]
fn test_add_infinity_with_point() {
    let modulus = 37;
    let a = Felt::new(3, modulus);
    let b = Felt::new(7, modulus);
    let x = Felt::new(18, modulus);
    let y = Felt::new(26, modulus);

    let p1 = ECPoint::new(x, y, a, b).unwrap();
    let p2 = ECPoint::infinity(a, b);

    let p3 = p2.add(&p1).unwrap();
    assert_eq!(p3, p1);
}

#[test]
fn test_add_infinity_with_infinity() {
    let modulus = 37;
    let a = Felt::new(3, modulus);
    let b = Felt::new(7, modulus);

    let p1 = ECPoint::infinity(a, b);
    let p2 = ECPoint::infinity(a, b);

    let p3 = p1.add(&p2).unwrap();
    assert_eq!(p3, ECPoint::infinity(a, b));
}

#[test]
fn test_multiply_by_one_should_equal_original() {
    let modulus = 37;
    let a = Felt::new(7, modulus);
    let b = Felt::new(13, modulus);
    let x = Felt::new(5, modulus);
    let y = Felt::new(5, modulus);

    let p = ECPoint::new(x, y, a, b).unwrap();
    let p2 = p.mul(1).unwrap();
    assert_eq!(p2, p);
}

#[test]
fn test_multiply_by_two() {
    let modulus = 37;
    let a = Felt::new(7, modulus);
    let b = Felt::new(13, modulus);
    let x = Felt::new(5, modulus);
    let y = Felt::new(5, modulus);

    let p = ECPoint::new(x, y, a, b).unwrap();
    let p2 = p.mul(2).unwrap();
    assert_eq!(
        p2,
        ECPoint::new(Felt::new(1, modulus), Felt::new(13, modulus), a, b).unwrap()
    );
}

#[test]
fn test_multiply_by_three() {
    let modulus = 37;
    let a = Felt::new(7, modulus);
    let b = Felt::new(13, modulus);
    let x = Felt::new(5, modulus);
    let y = Felt::new(5, modulus);

    let p = ECPoint::new(x, y, a, b).unwrap();
    let p2 = p.mul(3).unwrap();
    assert_eq!(
        p2,
        ECPoint::new(Felt::new(35, modulus), Felt::new(18, modulus), a, b).unwrap()
    );
}

#[test]
fn test_multiply_by_ten() {
    let modulus = 37;
    let a = Felt::new(7, modulus);
    let b = Felt::new(13, modulus);
    let x = Felt::new(5, modulus);
    let y = Felt::new(5, modulus);

    let p = ECPoint::new(x, y, a, b).unwrap();
    let p2 = p.mul(10).unwrap();
    assert_eq!(
        p2,
        ECPoint::new(Felt::new(22, modulus), Felt::new(14, modulus), a, b).unwrap()
    );
}

#[test]
fn test_compare_multiplication_and_addition() {
    let modulus = 37;
    let a = Felt::new(3, modulus);
    let b = Felt::new(7, modulus);
    let x = Felt::new(18, modulus);
    let y = Felt::new(26, modulus);
    let p = ECPoint::new(x, y, a, b).unwrap();

    let mut p_add = ECPoint::infinity(a, b);
    for i in 1..1000 {
        p_add = p_add.add(&p).unwrap();
        let p_mul = p.mul(i).unwrap();
        assert_eq!(p_add, p_mul);
    }
}

#[test]
fn test_multiply() {
    let modulus = 1021;
    let a = Felt::new(3, modulus).neg();
    let b = Felt::new(3, modulus).neg();
    let x = Felt::new(379, modulus);
    let y = Felt::new(1011, modulus);
    let p = ECPoint::new(x, y, a, b).unwrap();
    let k = 655;
    let kp = ECPoint::new(Felt::new(388, modulus), Felt::new(60, modulus), a, b).unwrap();
    assert_eq!(p.mul(k).unwrap(), kp);
}

#[test]
fn test_get_all_points_simple() {
    let modulus = 7;
    let a = Felt::new(2, modulus);
    let b = Felt::new(3, modulus);

    let points = ECPoint::get_all_points(a, b);
    assert_eq!(points.len(), 6);
}

#[test]
fn test_get_all_points_big_curve() {
    let modulus = 1021;
    let a = Felt::new(3, modulus).neg();
    let b = Felt::new(3, modulus).neg();
    println!("a = {}", a.to_display_string());
    let points = ECPoint::get_all_points(a, b);
    assert_eq!(points.len(), 1039);
}

#[test]
fn test_get_order() {
    let modulus = 1021;
    let a = Felt::new(3, modulus).neg();
    let b = Felt::new(3, modulus).neg();
    let x = Felt::new(379, modulus);
    let y = Felt::new(1011, modulus);
    let p = ECPoint::new(x, y, a, b).unwrap();
    let order = p.order().unwrap();
    assert_eq!(order, 1039);
}

#[test]
fn test_solve_dlp_brute_force() {
    let modulus = 1021;
    let a = Felt::new(905, modulus);
    let b = Felt::new(100, modulus);
    let x = Felt::new(1006, modulus);
    let y = Felt::new(416, modulus);
    let p = ECPoint::new(x, y, a, b).unwrap();

    let x = Felt::new(612, modulus);
    let y = Felt::new(827, modulus);
    let q = ECPoint::new(x, y, a, b).unwrap();

    let k = 687;
    let solved_k = p.solve_dlp_brute_force(q).unwrap();

    assert_eq!(solved_k, k);
    assert_eq!(p.mul(solved_k).unwrap(), q);
}

#[test]
fn test_solve_dlp_baby_step_giant_step() {
    let modulus = 1021;
    let a = Felt::new(905, modulus);
    let b = Felt::new(100, modulus);
    let x = Felt::new(1006, modulus);
    let y = Felt::new(416, modulus);
    let p = ECPoint::new(x, y, a, b).unwrap();

    let x = Felt::new(612, modulus);
    let y = Felt::new(827, modulus);
    let q = ECPoint::new(x, y, a, b).unwrap();

    let k = 687;
    let solved_k = p.solve_dlp_baby_step_giant_step(q).unwrap();

    assert_eq!(solved_k, k);
    assert_eq!(p.mul(solved_k).unwrap(), q);
}

#[test]
fn test_display() {
    let modulus = 37;
    let a = Felt::new(3, modulus);
    let b = Felt::new(7, modulus);
    let x = Felt::new(18, modulus);
    let y = Felt::new(26, modulus);

    let p1 = ECPoint::new(x, y, a, b).unwrap();
    assert_eq!(p1.to_display_string(), "(18, 26)");
}

#[test]
fn test_display_infinity() {
    let modulus = 37;
    let a = Felt::new(3, modulus);
    let b = Felt::new(7, modulus);

    let p1 = ECPoint::infinity(a, b);
    assert_eq!(p1.to_display_string(), "Infinity");
}

#[test]
fn test_negate_twice_is_original() {
    let modulus = 37;
    let a = Felt::new(3, modulus);
    let b = Felt::new(7, modulus);
    let x = Felt::new(18, modulus);
    let y = Felt::new(26, modulus);

    let p = ECPoint::new(x, y, a, b).unwrap();
    assert_eq!(p.neg().neg(), p);
}

#[test]
fn test_negate_infinity_is_infinity() {
    let modulus = 37;
    let a = Felt::new(3, modulus);
    let b = Felt::new(7, modulus);

    let p = ECPoint::infinity(a, b);
    assert_eq!(p.neg(), p);
}

#[test]
fn test_multiply_by_zero_is_infinity() {
    let modulus = 37;
    let a = Felt::new(7, modulus);
    let b = Felt::new(13, modulus);
    let x = Felt::new(5, modulus);
    let y = Felt::new(5, modulus);

    let p = ECPoint::new(x, y, a, b).unwrap();
    assert_eq!(p.mul(0).unwrap(), ECPoint::infinity(a, b));
}

#[test]
fn test_brute_force_identity_target_not_found() {
    // the walk stops upon reaching the identity without matching it
    let modulus = 7;
    let a = Felt::new(2, modulus);
    let b = Felt::new(3, modulus);
    let p = ECPoint::new(Felt::new(2, modulus), Felt::new(1, modulus), a, b).unwrap();
    let target = ECPoint::infinity(a, b);
    assert_eq!(p.solve_dlp_brute_force(target), None);
}

#[test]
fn test_order_of_doubling_point() {
    // 2P, 3P, ... on the a=7, b=13 curve: P=(5,5) generates a subgroup
    let modulus = 37;
    let a = Felt::new(7, modulus);
    let b = Felt::new(13, modulus);
    let p = ECPoint::new(Felt::new(5, modulus), Felt::new(5, modulus), a, b).unwrap();
    let order = p.order().unwrap();
    assert_eq!(p.mul(order).unwrap(), ECPoint::infinity(a, b));
}
