use prime_sieve::num_util::gcd;

#[test]
fn gcd_1() {
    assert_eq!(gcd(6, 9), 3);
}

#[test]
fn gcd_2() {}

#[test]
fn gcd_3() {
    assert_eq!(gcd(55, 15), 5);
}

#[test]
fn gcd_4() {
    assert_eq!(gcd(906, 755), 151);
    assert_eq!(gcd(1661, 906), 151);
    assert_eq!(gcd(25821, 1661), 151);
    assert_eq!(gcd(163231, 135749), 151);
}

#[test]
fn gcd_where_one_number_divides_the_other() {
    assert_eq!(gcd(10, 5), 5);
    assert_eq!(gcd(5, 10), 5);
    assert_eq!(gcd(7, 7), 7);
    assert_eq!(gcd(1, 9), 1);
}

#[test]
fn gcd_with_zero() {
    assert_eq!(gcd(12, 0), 12);
    assert_eq!(gcd(0, 12), 12);
    assert_eq!(gcd(0, 0), 0);
}

#[test]
fn gcd_of_numbers_without_a_common_factor_is_one() {
    assert_eq!(gcd(17, 5), 1);
    assert_eq!(gcd(8, 27), 1);
    assert_eq!(gcd(4294967295, 4294967294), 1);
}

#[test]
fn gcd_does_not_mind_the_order() {
    assert_eq!(gcd(9, 6), 3);
    assert_eq!(gcd(15, 55), 5);
    assert_eq!(gcd(755, 906), 151);
    assert_eq!(gcd(4294967295, 65535), 65535);
}
