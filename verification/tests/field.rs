use mpc::field::Field;

#[test]
fn test_zero() {
    let field = Field::new(13u8);
    assert_eq!(field.zero(), 0u8);
}

#[test]
fn test_one() {
    let field = Field::new(13u8);
    assert_eq!(field.one(), 1u8);
}

#[test]
fn test_add() {
    let field = Field::new(13u8);
    assert_eq!(field.add(7u8, 8u8), 2u8);
}

#[test]
fn test_sub() {
    let field = Field::new(13u8);
    assert_eq!(field.sub(7u8, 8u8), 12u8);
}

#[test]
fn test_mul() {
    let field = Field::new(13u8);
    assert_eq!(field.mul(7u8, 8u8), 4u8);
}

#[test]
fn test_inv() {
    let field = Field::new(13u8);
    assert_eq!(field.inv(7u8), 2u8);
}

#[test]
fn field_test_random() {
    let mut field = Field::new(13u8);
    assert!(field.random() < 13u8);
}

#[test]
fn random_stays_below_the_order() {
    let mut field = Field::new(5u16);
    for _ in 0..200 {
        assert!(field.random() < 5u16);
    }
}

#[test]
fn results_are_normalized() {
    let field = Field::new(13u8);
    for a in 0u8..13 {
        for b in 0u8..13 {
            assert!(field.add(a, b) < 13);
            assert!(field.mul(a, b) < 13);
            assert!(field.sub(a, b) < 13);
            assert_eq!(field.add(field.sub(a, b), b) % 13, a % 13);
        }
    }
}

#[test]
fn sub_then_add_gives_back_any_value() {
    let field = Field::new(13u8);
    for a in [0u8, 5, 12, 13, 14, 100, 200, 255] {
        for b in [0u8, 1, 12, 13, 27, 199, 255] {
            assert_eq!(field.add(field.sub(a, b), b) % 13, a % 13);
        }
    }
}

#[test]
fn sub_below_zero_of_a_multiple_of_the_order() {
    let field = Field::new(13u8);
    assert_eq!(field.sub(0u8, 13u8), 0u8);
    assert_eq!(field.sub(1u8, 27u8), 0u8);
    assert_eq!(field.sub(1u8, 28u8), 12u8);
}

#[test]
fn every_difference_is_normalized() {
    let field = Field::new(13u8);
    for a in [0u8, 5, 12, 13, 14, 100, 200, 255] {
        for b in [0u8, 1, 12, 13, 27, 199, 255] {
            assert!(field.sub(a, b) < 13);
        }
    }
}

#[test]
fn wide_operands_do_not_overflow() {
    let field = Field::new(251u8);
    assert_eq!(field.add(250u8, 250u8), 249u8);
    assert_eq!(field.mul(250u8, 250u8), 1u8);
    let wide = Field::new(u64::MAX);
    assert_eq!(wide.mul(u64::MAX - 1, u64::MAX - 1), 1u64);
    assert_eq!(wide.add(u64::MAX - 1, 2), 1u64);
}

#[test]
fn every_nonzero_element_has_an_inverse() {
    let field = Field::new(13u8);
    for a in 1u8..13 {
        assert_eq!(field.mul(a, field.inv(a)) % 13, 1);
    }
    let large = Field::new(251u16);
    for a in 1u16..251 {
        assert_eq!(large.mul(a, large.inv(a)), 1);
    }
}

#[test]
fn inverse_is_the_power_order_minus_two() {
    let field = Field::new(13u16);
    for a in 0u16..13 {
        let mut power = 1u16;
        for _ in 0..11 {
            power = power * a % 13;
        }
        assert_eq!(field.inv(a), power);
        assert_eq!(field.pow(a, 11), power);
    }
    assert_eq!(field.pow(5u16, 0u16), 1u16);
    assert_eq!(field.pow(0u16, 0u16), 1u16);
    assert_eq!(field.pow(0u16, 3u16), 0u16);
}

#[test]
fn inverse_of_zero_is_zero() {
    let field = Field::new(13u8);
    assert_eq!(field.inv(0u8), 0u8);
}

#[test]
fn clone_keeps_the_order() {
    let field = Field::new(251u16);
    let copy = field.clone();
    assert_eq!(copy.get_order(), 251u16);
    assert_eq!(copy.add(250, 2), 1);
}
