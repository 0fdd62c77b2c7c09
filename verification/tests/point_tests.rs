use glstsp::types::point::Point;

#[test]
fn from_string_0_0() {
    let expected = Point::new(0, 0);
    assert_eq!(Point::from("0 0"), expected);
    assert_eq!(Point::from("0e10 0e20"), expected);
    assert_eq!(Point::from("0.0e10 0.0e20"), expected);
}

#[test]
fn from_string_1_2() {
    let expected = Point::new(1, 2);
    assert_eq!(Point::from("1 2"), expected);
    assert_eq!(Point::from("1e0 2e0"), expected);
    assert_eq!(Point::from("1.0e0 2.0e0"), expected);
}

#[test]
fn from_string_10_20() {
    let expected = Point::new(10, 20);
    assert_eq!(Point::from("10 20"), expected);
    assert_eq!(Point::from("1e1 2e1"), expected);
    assert_eq!(Point::from("1.0e1 2.0e1"), expected);
}

#[test]
fn from_string_truncates() {
    assert_eq!(Point::from("2.5 -3.7"), Point::new(2, -3));
    assert_eq!(Point::from("+4.999 -0.5"), Point::new(4, 0));
    assert_eq!(Point::from("123.456e1 12e-1"), Point::new(1234, 1));
}

#[test]
fn from_string_saturates() {
    assert_eq!(Point::from("1e10 -1e10"), Point::new(2147483647, -2147483648));
    assert_eq!(Point::from("99999999999 2e9"), Point::new(2147483647, 2000000000));
    assert_eq!(Point::from("3e9 -4e9"), Point::new(2147483647, -2147483648));
}

#[test]
fn from_string_malformed_reads_zero() {
    assert_eq!(Point::from("abc 7"), Point::new(0, 7));
    assert_eq!(Point::from("1e 2"), Point::new(0, 2));
    assert_eq!(Point::from("3"), Point::new(3, 0));
    assert_eq!(Point::from(""), Point::new(0, 0));
    assert_eq!(Point::from("1.2.3 ."), Point::new(0, 0));
}

#[test]
fn dist_is_truncated_euclidean() {
    assert_eq!(Point::new(0, 0).dist(Point::new(3, 4)), 5);
    assert_eq!(Point::new(0, 0).dist(Point::new(1, 1)), 1);
    assert_eq!(Point::new(2830, 40).dist(Point::new(2830, 77)), 37);
    assert_eq!(Point::new(2830, 114).dist(Point::new(2831, 155)), 41);
    assert_eq!(Point::new(-3, -4).dist(Point::new(0, 0)), 5);
}
