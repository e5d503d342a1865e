use sheets_lib::{format_formula, parse_formula, Coord, Formula, FormulaAtom, FormulaOp, Number, Sheet};

fn num(n: i64, d: i64) -> Number {
    Number::from_ratio(n, d).unwrap()
}

#[test]
fn test_string() {
    let r = parse_formula("\"foo\"").ok().unwrap();
    if let Formula::Atom(FormulaAtom::String(ref x)) = r {
        assert_eq!("foo", *x);
        assert_eq!("\"foo\"", format_formula(&r).as_str());
    } else {
        panic!();
    };
}

#[test]
fn test_number() {
    let mut r = parse_formula("123.4").ok().unwrap();
    if let Formula::Atom(FormulaAtom::Number(ref x)) = r {
        assert_eq!(num(1234, 10), *x);
        assert_eq!("123.4", format_formula(&r).as_str());
    } else {
        panic!();
    };

    r = parse_formula("-0.34").ok().unwrap();
    if let Formula::Atom(FormulaAtom::Number(ref x)) = r {
        assert_eq!(num(-34, 100), *x);
        assert_eq!("-0.34", format_formula(&r).as_str());
    } else {
        panic!();
    };
}

#[test]
fn test_ref() {
    let mut r = parse_formula("C4").ok().unwrap();
    assert_eq!(Formula::Ref(Coord(2, 3)), r);
    assert_eq!("C4", format_formula(&r).as_str());

    r = parse_formula("AAB45").ok().unwrap();
    assert_eq!(Formula::Ref(Coord(703, 44)), r);
    assert_eq!("AAB45", format_formula(&r).as_str());
}

#[test]
fn test_op() {
    let formula = parse_formula("add(1.0, sub(A3, 3.0), 4.6)").ok().unwrap();
    if let Formula::Op(FormulaOp::Add, _) = formula {
        let mut sheet = Sheet::new();
        sheet.set(Coord(0, 2), Formula::Atom(FormulaAtom::Number(num(15, 1))));
        sheet.set(Coord(5, 5), formula);
        if let FormulaAtom::Number(ref x) = *sheet.value(Coord(5, 5)).ok().unwrap() {
            assert_eq!(num(176, 10), *x);
        } else {
            panic!();
        }
    } else {
        panic!();
    };
}

#[test]
fn test_empty_input_is_empty_atom() {
    assert_eq!(Ok(Formula::Atom(FormulaAtom::Empty)), parse_formula(""));
}

#[test]
fn test_integer_literal_is_rejected() {
    assert!(parse_formula("5").is_err());
    assert!(parse_formula("-5").is_err());
    assert!(parse_formula("5.").is_err());
}

#[test]
fn test_fraction_only_literal() {
    let r = parse_formula(".5").ok().unwrap();
    assert_eq!(Formula::Atom(FormulaAtom::Number(num(1, 2))), r);
    let r = parse_formula("-.25").ok().unwrap();
    assert_eq!(Formula::Atom(FormulaAtom::Number(num(-1, 4))), r);
}

#[test]
fn test_mul_keyword_is_multiplication() {
    let formula = parse_formula("mul(3.0, 4.0)").ok().unwrap();
    if let Formula::Op(FormulaOp::Mul, _) = formula {
        let mut sheet = Sheet::new();
        sheet.set(Coord(0, 0), formula);
        assert_eq!(
            FormulaAtom::Number(num(12, 1)),
            *sheet.value(Coord(0, 0)).ok().unwrap()
        );
    } else {
        panic!();
    }
}

#[test]
fn test_op_round_trip_keeps_separators() {
    let text = "add(1.5, 2.5)";
    let formula = parse_formula(text).ok().unwrap();
    assert_eq!(text, format_formula(&formula).as_str());
    let again = parse_formula(format_formula(&formula).as_str()).ok().unwrap();
    assert_eq!(formula, again);
}

#[test]
fn test_nested_op_text() {
    // Whole numbers render without a decimal point, so the rendering of
    // a parsed formula is canonical text, not always the original text.
    let formula = parse_formula("div(avg(1.0, 3.0), B2)").ok().unwrap();
    assert_eq!("div(avg(1, 3), B2)", format_formula(&formula).as_str());
}

#[test]
fn test_empty_argument_list_parses() {
    let formula = parse_formula("add()").ok().unwrap();
    assert_eq!(Formula::Op(FormulaOp::Add, vec![]), formula);
    assert_eq!("add()", format_formula(&formula).as_str());
}

#[test]
fn test_unterminated_input_is_rejected() {
    assert!(parse_formula("\"foo").is_err());
    assert!(parse_formula("add(1.0").is_err());
    assert!(parse_formula("add(1.0))").is_err());
    assert!(parse_formula("frobnicate(1.0)").is_err());
    assert!(parse_formula("A0").is_err());
}

#[test]
fn test_parse_error_reports_position() {
    let e = parse_formula("add(1.0,2.0]").err().unwrap();
    assert_eq!(11, e.pos);
}

#[test]
fn test_empty_atom_formats_as_empty_text() {
    assert_eq!("", format_formula(&Formula::Atom(FormulaAtom::Empty)).as_str());
}

#[test]
fn test_whole_number_formats_without_point() {
    let f = Formula::Atom(FormulaAtom::Number(num(5, 1)));
    assert_eq!("5", format_formula(&f).as_str());
}
