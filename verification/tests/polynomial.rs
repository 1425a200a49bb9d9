use mpc::field::Field;
use mpc::polynomial::Polynomial;

#[test]
fn polynomial_test_random() {
    let poly = Polynomial::random(2u8, 5, Field::new(13u8));
    assert_eq!(poly.get_coeffs().len(), 6);
    assert_eq!(poly.get_coeffs()[0], 2u8);
}

#[test]
fn test_eval() {
    let poly = Polynomial::random(2u8, 2, Field::new(13u8));
    let c0 = 2u8;
    let c1 = poly.get_coeffs()[1];
    let c2 = poly.get_coeffs()[2];

    assert_eq!(poly.eval(0), c0);
    assert_eq!(poly.eval(1), (c0 + c1 + c2) % 13u8);
    assert_eq!(poly.eval(2), (c0 + 2 * c1 + 4 * c2) % 13u8);
}

#[test]
fn test_lagrange() {
    let field = Field::new(13u8);
    let knots: Vec<u8> = (1..4).collect();
    assert_eq!(Polynomial::lagrange(&knots, 2, &field), 10u8);
}

#[test]
fn test_interpolate() {
    let field = Field::new(13u16);
    let poly = Polynomial::random(2u16, 2, field.clone());
    assert_eq!(
        Polynomial::interpolate((1..4).map(|i| poly.eval(i)).collect(), &field, 3),
        2u16
    );
}

#[test]
fn random_coefficients_are_normalized() {
    let poly = Polynomial::random(200u8, 40, Field::new(13u8));
    let coeffs = poly.get_coeffs();
    assert_eq!(coeffs.len(), 41);
    assert_eq!(coeffs[0], 200u8);
    for c in &coeffs[1..] {
        assert!(*c < 13);
    }
}

#[test]
fn degree_zero_is_the_constant() {
    let poly = Polynomial::random(7u16, 0, Field::new(251u16));
    assert_eq!(poly.get_coeffs(), vec![7u16]);
    for x in 0u16..10 {
        assert_eq!(poly.eval(x), 7);
    }
}

#[test]
fn eval_is_the_value_of_the_polynomial() {
    // 3 + 5x + 7x^2 + 11x^3 over the integers modulo 251
    let poly = Polynomial::with_coefficients(vec![3u16, 5, 7, 11], Field::new(251u16));
    assert_eq!(poly.eval(0), 3);
    assert_eq!(poly.eval(1), 26);
    assert_eq!(poly.eval(2), (3 + 10 + 28 + 88) % 251);
    assert_eq!(poly.eval(10), (3 + 50 + 700 + 11000) % 251);
    let empty = Polynomial::with_coefficients(Vec::<u16>::new(), Field::new(251u16));
    assert_eq!(empty.eval(9), 0);
}

#[test]
fn shares_are_the_values_at_the_parties() {
    let poly = Polynomial::with_coefficients(vec![3u16, 5, 7], Field::new(13u16));
    assert_eq!(poly.shares(4), vec![15 % 13, (3 + 10 + 28) % 13, (3 + 15 + 63) % 13, (3 + 20 + 112) % 13]);
    assert_eq!(poly.shares(0), Vec::<u16>::new());
}

#[test]
fn knots_are_one_to_n() {
    assert_eq!(Polynomial::<u8>::knots(4), vec![1u8, 2, 3, 4]);
    assert_eq!(Polynomial::<u64>::knots(0), Vec::<u64>::new());
}

#[test]
fn lagrange_of_one_knot() {
    let field = Field::new(13u8);
    assert_eq!(Polynomial::lagrange(&vec![1u8], 1, &field), 1u8);
    assert_eq!(Polynomial::lagrange(&Vec::<u8>::new(), 1, &field), 1u8);
    // 3 / (3 - 1) = 3 * 7 = 21 = 8 modulo 13
    assert_eq!(Polynomial::lagrange(&vec![3u8], 1, &field), 8u8);
}

#[test]
fn lagrange_coefficients_of_three_parties() {
    let field = Field::new(13u8);
    let knots: Vec<u8> = vec![1, 2, 3];
    // 3, -3 and 1 modulo 13
    assert_eq!(Polynomial::lagrange(&knots, 1, &field), 3u8);
    assert_eq!(Polynomial::lagrange(&knots, 2, &field), 10u8);
    assert_eq!(Polynomial::lagrange(&knots, 3, &field), 1u8);
}

#[test]
fn interpolate_is_the_weighted_sum() {
    let field = Field::new(13u8);
    // 3 * 4 - 3 * 9 + 1 * 5 = -10 = 3 modulo 13
    assert_eq!(Polynomial::interpolate(vec![4u8, 9, 5], &field, 3), 3u8);
    assert_eq!(Polynomial::interpolate(Vec::<u8>::new(), &field, 0), 0u8);
    assert_eq!(Polynomial::interpolate(vec![9u8], &field, 1), 9u8);
}

#[test]
fn sharing_round_trip() {
    for (order, n_max) in [(13u16, 12usize), (251u16, 9usize)] {
        let field = Field::new(order);
        for degree in 0..5usize {
            for n in (degree + 1)..=n_max {
                for secret in [0u16, 1, 2, order - 1] {
                    let poly = Polynomial::random(secret, degree, field.clone());
                    let shares = poly.shares(n);
                    assert_eq!(Polynomial::interpolate(shares, &field, n), secret);
                }
            }
        }
    }
}

#[test]
fn too_few_shares_do_not_reconstruct() {
    // x^2 at 1 and 2 through a line: 2 * 1 - 1 * 4 = -2 = 11 modulo 13, not 0
    let field = Field::new(13u8);
    let poly = Polynomial::with_coefficients(vec![0u8, 0, 1], field.clone());
    assert_eq!(Polynomial::interpolate(poly.shares(2), &field, 2), 11u8);
}

#[test]
fn a_composite_order_does_not_reconstruct() {
    // 1 + x modulo 4: the shares 2 and 3 of two parties give 3, not 1
    let field = Field::new(4u8);
    let poly = Polynomial::with_coefficients(vec![1u8, 1], field.clone());
    assert_eq!(poly.shares(2), vec![2, 3]);
    assert_eq!(Polynomial::interpolate(poly.shares(2), &field, 2), 3u8);
}

#[test]
fn the_party_at_the_order_holds_the_secret() {
    // modulo 3 the third party has the evaluation point zero: its share
    // alone is what the parties reconstruct
    let field = Field::new(3u8);
    let poly = Polynomial::with_coefficients(vec![1u8, 1, 2, 2, 1], field.clone());
    assert_eq!(poly.shares(3)[2], 1);
    assert_eq!(Polynomial::interpolate(poly.shares(3), &field, 3), 1u8);
    assert_eq!(Polynomial::interpolate(poly.shares(5), &field, 5), 1u8);
    assert_eq!(Polynomial::interpolate(vec![0u8, 0, 2, 0, 0], &field, 5), 2u8);
}

#[test]
fn twice_as_many_parties_as_the_order_do_not_reconstruct() {
    let field = Field::new(3u8);
    let poly = Polynomial::with_coefficients(vec![1u8], field.clone());
    assert_eq!(poly.shares(6), vec![1; 6]);
    assert_eq!(Polynomial::interpolate(poly.shares(6), &field, 6), 0u8);
}
