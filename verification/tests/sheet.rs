use sheets_lib::{Coord, Formula, FormulaAtom, FormulaErr, FormulaOp, Number, Sheet};

fn num(n: i64, d: i64) -> Number {
    Number::from_ratio(n, d).unwrap()
}

#[test]
fn test_sheet() {
    let mut sheet = Sheet::new();
    assert_eq!(FormulaAtom::Empty, *sheet.value(Coord(0, 0)).ok().unwrap());
    assert_eq!(FormulaAtom::Empty, *sheet.value(Coord(2, 3)).ok().unwrap());

    sheet.set(Coord(2, 3), Formula::Atom(FormulaAtom::Empty));
    assert_eq!(FormulaAtom::Empty, *sheet.value(Coord(0, 0)).ok().unwrap());
    assert_eq!(FormulaAtom::Empty, *sheet.value(Coord(2, 3)).ok().unwrap());

    sheet.set(Coord(2, 3), Formula::Atom(FormulaAtom::String("test".to_string())));
    assert_eq!(FormulaAtom::Empty, *sheet.value(Coord(0, 0)).ok().unwrap());
    if let FormulaAtom::String(ref x) = *sheet.value(Coord(2, 3)).ok().unwrap() {
        assert_eq!("test", *x);
    } else {
        panic!();
    };

    sheet.set(Coord(3, 4), Formula::Ref(Coord(2, 3)));
    sheet.set(Coord(5, 6), Formula::Ref(Coord(3, 4)));
    if let FormulaAtom::String(ref x) = *sheet.value(Coord(5, 6)).ok().unwrap() {
        assert_eq!("test", *x);
    } else {
        panic!();
    };
}

#[test]
fn test_sheet_cycle() {
    let mut sheet = Sheet::new();
    sheet.set(Coord(0, 0), Formula::Ref(Coord(0, 0)));
    if let Err(FormulaErr::Ref(x)) = sheet.value(Coord(0, 0)) {
        assert_eq!(Coord(0, 0), x);
    } else {
        panic!();
    };
}

#[test]
fn test_sheet_long_cycle() {
    let mut sheet = Sheet::new();
    sheet.set(Coord(0, 0), Formula::Ref(Coord(0, 1)));
    sheet.set(Coord(0, 1), Formula::Ref(Coord(0, 2)));
    sheet.set(Coord(0, 2), Formula::Ref(Coord(0, 3)));
    sheet.set(Coord(0, 3), Formula::Ref(Coord(0, 1)));
    if let Err(FormulaErr::Ref(x)) = sheet.value(Coord(0, 0)) {
        assert_eq!(Coord(0, 1), x);
    } else {
        panic!();
    };
}

#[test]
fn test_sheet_add() {
    let mut sheet = Sheet::new();
    sheet.set(Coord(0, 0), Formula::Atom(FormulaAtom::Number(num(2, 1))));
    sheet.set(Coord(0, 1), Formula::Atom(FormulaAtom::Number(num(3, 1))));
    sheet.set(
        Coord(0, 2),
        Formula::Op(
            FormulaOp::Add,
            vec![
                Formula::Atom(FormulaAtom::Number(num(4, 1))),
                Formula::Ref(Coord(0, 0)),
                Formula::Ref(Coord(0, 1)),
            ],
        ),
    );

    assert_eq!(FormulaAtom::Number(num(9, 1)), *sheet.value(Coord(0, 2)).ok().unwrap());
}

#[test]
fn test_sheet_add_cycle() {
    let mut sheet = Sheet::new();
    sheet.set(Coord(0, 0), Formula::Atom(FormulaAtom::Number(num(2, 1))));
    sheet.set(Coord(0, 1), Formula::Ref(Coord(0, 1)));
    sheet.set(
        Coord(0, 2),
        Formula::Op(
            FormulaOp::Add,
            vec![
                Formula::Atom(FormulaAtom::Number(num(4, 1))),
                Formula::Ref(Coord(0, 0)),
                Formula::Ref(Coord(0, 1)),
            ],
        ),
    );

    if let Err(FormulaErr::Ref(x)) = sheet.value(Coord(0, 2)) {
        assert_eq!(Coord(0, 1), x);
    } else {
        panic!();
    };
}

#[test]
fn test_sheet_add_string() {
    let mut sheet = Sheet::new();
    sheet.set(Coord(0, 0), Formula::Atom(FormulaAtom::Number(num(2, 1))));
    sheet.set(Coord(0, 1), Formula::Atom(FormulaAtom::String("not a number".to_string())));
    sheet.set(
        Coord(0, 2),
        Formula::Op(
            FormulaOp::Add,
            vec![
                Formula::Atom(FormulaAtom::Number(num(4, 1))),
                Formula::Ref(Coord(0, 0)),
                Formula::Ref(Coord(0, 1)),
            ],
        ),
    );

    if let Err(FormulaErr::Type(x)) = sheet.value(Coord(0, 2)) {
        assert_eq!("Number", x);
    } else {
        panic!();
    };
}

#[test]
fn test_sheet_avg() {
    let mut sheet = Sheet::new();
    sheet.set(Coord(0, 0), Formula::Atom(FormulaAtom::Number(num(2, 1))));
    sheet.set(Coord(0, 1), Formula::Atom(FormulaAtom::Number(num(3, 1))));
    sheet.set(
        Coord(0, 2),
        Formula::Op(
            FormulaOp::Avg,
            vec![
                Formula::Atom(FormulaAtom::Number(num(10, 1))),
                Formula::Ref(Coord(0, 0)),
                Formula::Ref(Coord(0, 1)),
            ],
        ),
    );

    assert_eq!(FormulaAtom::Number(num(5, 1)), *sheet.value(Coord(0, 2)).ok().unwrap());
}

#[test]
fn test_diamond_dependency_is_no_cycle() {
    // Two distinct cells both reference the same third cell; reading a
    // formula whose sibling arguments reach both must not report a cycle.
    let mut sheet = Sheet::new();
    sheet.set(Coord(0, 0), Formula::Atom(FormulaAtom::Number(num(1, 1))));
    sheet.set(Coord(1, 0), Formula::Ref(Coord(0, 0)));
    sheet.set(Coord(2, 0), Formula::Ref(Coord(0, 0)));
    sheet.set(
        Coord(3, 0),
        Formula::Op(
            FormulaOp::Add,
            vec![Formula::Ref(Coord(1, 0)), Formula::Ref(Coord(2, 0))],
        ),
    );
    assert_eq!(FormulaAtom::Number(num(2, 1)), *sheet.value(Coord(3, 0)).ok().unwrap());
}

#[test]
fn test_set_empty_removes_cell() {
    let mut sheet = Sheet::new();
    sheet.set(Coord(1, 1), Formula::Atom(FormulaAtom::Number(num(7, 2))));
    assert_eq!(FormulaAtom::Number(num(7, 2)), *sheet.value(Coord(1, 1)).ok().unwrap());
    sheet.set(Coord(1, 1), Formula::Atom(FormulaAtom::Empty));
    assert_eq!(FormulaAtom::Empty, *sheet.value(Coord(1, 1)).ok().unwrap());
}

#[test]
fn test_zero_arguments_is_arity_error() {
    let mut sheet = Sheet::new();
    sheet.set(Coord(0, 0), Formula::Op(FormulaOp::Add, vec![]));
    if let Err(FormulaErr::Arity(n)) = sheet.value(Coord(0, 0)) {
        assert_eq!(1, n);
    } else {
        panic!();
    };
}

#[test]
fn test_division_by_zero_is_reported() {
    let mut sheet = Sheet::new();
    sheet.set(
        Coord(0, 0),
        Formula::Op(
            FormulaOp::Div,
            vec![
                Formula::Atom(FormulaAtom::Number(num(1, 1))),
                Formula::Atom(FormulaAtom::Number(num(0, 1))),
            ],
        ),
    );
    assert_eq!(Err(FormulaErr::DivByZero), sheet.value(Coord(0, 0)).map(|b| *b));
}

#[test]
fn test_unrepresentable_result_is_reported() {
    let big = Number::from_ratio(i64::MAX, 1).unwrap();
    let mut sheet = Sheet::new();
    sheet.set(
        Coord(0, 0),
        Formula::Op(
            FormulaOp::Mul,
            vec![
                Formula::Atom(FormulaAtom::Number(big)),
                Formula::Atom(FormulaAtom::Number(big)),
            ],
        ),
    );
    assert_eq!(Err(FormulaErr::Overflow), sheet.value(Coord(0, 0)).map(|b| *b));
}

#[test]
fn test_subtraction_folds_left_to_right() {
    let mut sheet = Sheet::new();
    sheet.set(
        Coord(0, 0),
        Formula::Op(
            FormulaOp::Sub,
            vec![
                Formula::Atom(FormulaAtom::Number(num(4, 1))),
                Formula::Atom(FormulaAtom::Number(num(3, 1))),
                Formula::Atom(FormulaAtom::Number(num(2, 1))),
            ],
        ),
    );
    assert_eq!(FormulaAtom::Number(num(-1, 1)), *sheet.value(Coord(0, 0)).ok().unwrap());
}

#[test]
fn test_division_is_exact() {
    let mut sheet = Sheet::new();
    sheet.set(
        Coord(0, 0),
        Formula::Op(
            FormulaOp::Div,
            vec![
                Formula::Atom(FormulaAtom::Number(num(1, 1))),
                Formula::Atom(FormulaAtom::Number(num(3, 1))),
            ],
        ),
    );
    assert_eq!(FormulaAtom::Number(num(1, 3)), *sheet.value(Coord(0, 0)).ok().unwrap());
}
