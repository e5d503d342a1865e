use sheets_lib::{
    natural_col_to_numeric, natural_to_numeric, numeric_col_to_natural, Coord, NatCoord, Number,
};

#[test]
fn test_natural_to_numeric() {
    assert_eq!(Coord(0, 0), natural_to_numeric("A", 1).unwrap());
    assert_eq!(Coord(1, 0), natural_to_numeric("B", 1).unwrap());
    assert_eq!(Coord(25, 9), natural_to_numeric("Z", 10).unwrap());
    assert_eq!(Coord(26, 9), natural_to_numeric("AA", 10).unwrap());
    assert_eq!(Coord(27, 9), natural_to_numeric("AB", 10).unwrap());
    assert_eq!(Coord(26 + 25, 9), natural_to_numeric("AZ", 10).unwrap());
    assert_eq!(Coord(26 + 26, 9), natural_to_numeric("BA", 10).unwrap());
    assert_eq!(Coord(701, 9), natural_to_numeric("ZZ", 10).unwrap());
    assert_eq!(Coord(702, 9), natural_to_numeric("AAA", 10).unwrap());
}

#[test]
fn test_bad_natural_col() {
    assert_eq!(None, natural_to_numeric("A\u{d1}B", 1));
}

#[test]
fn test_empty_natural_col() {
    assert_eq!(None, natural_to_numeric("", 1));
}

#[test]
fn test_bad_natural_row() {
    assert_eq!(None, natural_to_numeric("A", 0));
}

#[test]
fn test_nat_coord_to_numeric() {
    assert_eq!(Coord(35, 3), NatCoord("AJ", 4).to_numeric().unwrap());
    assert_eq!(None, NatCoord("a1", 1).to_numeric());
}

#[test]
fn test_numeric_col_to_natural() {
    assert_eq!("A", numeric_col_to_natural(0).as_str());
    assert_eq!("Z", numeric_col_to_natural(25).as_str());
    assert_eq!("AA", numeric_col_to_natural(26).as_str());
    assert_eq!("ZZ", numeric_col_to_natural(701).as_str());
    assert_eq!("AAA", numeric_col_to_natural(702).as_str());
    assert_eq!(Some(702), natural_col_to_numeric("AAA"));
}

#[test]
fn test_coord_parse_format_round_trip() {
    for &(col, row) in &[(0usize, 0usize), (2, 3), (701, 9), (702, 9), (703, 44), (18277, 999)] {
        let c = Coord(col, row);
        let text = c.format_natural();
        assert_eq!(Some(c), Coord::parse(text.as_str()));
    }
    assert_eq!("A1", Coord(0, 0).format_natural().as_str());
    assert_eq!("AAB45", Coord(703, 44).format_natural().as_str());
}

#[test]
fn test_coord_parse_rejects_malformed_text() {
    assert_eq!(None, Coord::parse("A0"));
    assert_eq!(None, Coord::parse("A"));
    assert_eq!(None, Coord::parse("7"));
    assert_eq!(None, Coord::parse("A;3"));
    assert_eq!(None, Coord::parse("A1B"));
    assert_eq!(Some(Coord(0, 0)), Coord::parse("A01"));
}

#[test]
fn test_number_normal_form() {
    assert_eq!((5, 2), Number::from_ratio(10, 4).unwrap().as_ratio());
    assert_eq!((-5, 2), Number::from_ratio(10, -4).unwrap().as_ratio());
    assert_eq!((0, 1), Number::from_ratio(0, 7).unwrap().as_ratio());
    assert_eq!(None, Number::from_ratio(1, 0));
    assert_eq!(Number::from_ratio(3, 1).unwrap(), Number::from_int(3));
}

#[test]
fn test_number_checked_arithmetic() {
    let a = Number::from_ratio(1, 2).unwrap();
    let b = Number::from_ratio(1, 3).unwrap();
    assert_eq!((5, 6), a.checked_add(&b).unwrap().as_ratio());
    assert_eq!((1, 6), a.checked_sub(&b).unwrap().as_ratio());
    assert_eq!((1, 6), a.checked_mul(&b).unwrap().as_ratio());
    assert_eq!((3, 2), a.checked_div(&b).unwrap().as_ratio());
    let big = Number::from_int(i64::MAX);
    assert_eq!(None, big.checked_mul(&big));
}
