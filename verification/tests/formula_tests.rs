use factor_engine::{
    Factor, Formula, FormulaFn, FormulaSystem, RegisterError, Subject,
};

fn subject(entity: u64, kind: u32) -> Subject {
    Subject { entity, kind }
}

fn plain_engine() -> FormulaSystem {
    FormulaSystem::new(Vec::new()).unwrap()
}

#[test]
fn sum_of_no_inputs_is_zero() {
    let mut sys = plain_engine();
    let f = subject(1, 0);
    sys.add_formula(Formula::new(Vec::new(), FormulaFn::Sum, f)).unwrap();
    assert_eq!(sys.get_factor(&f), 0);
}

#[test]
fn ratio_truncates_toward_zero() {
    let mut sys = plain_engine();
    let a = subject(1, 0);
    let f = subject(2, 0);
    let g = subject(3, 0);
    sys.add_factor(&a, 7).unwrap();
    sys.add_formula(Formula::new(vec![a], FormulaFn::Ratio { num: -3, den: 2 }, f)).unwrap();
    sys.add_formula(Formula::new(vec![a], FormulaFn::Ratio { num: 3, den: 2 }, g)).unwrap();
    // 7 * -3 / 2 = -21 / 2, truncated toward zero.
    assert_eq!(sys.get_factor(&f), -10);
    assert_eq!(sys.get_factor(&g), 10);
    sys.set_factor(&a, -7).unwrap();
    assert_eq!(sys.get_factor(&f), 10);
    assert_eq!(sys.get_factor(&g), -10);
}

#[test]
fn ratio_saturates_on_overflow() {
    let mut sys = plain_engine();
    let a = subject(1, 0);
    let f = subject(2, 0);
    sys.add_factor(&a, i64::MAX).unwrap();
    sys.add_formula(Formula::new(vec![a], FormulaFn::Ratio { num: 3, den: 1 }, f)).unwrap();
    assert_eq!(sys.get_factor(&f), i64::MAX);
    sys.set_factor(&a, i64::MIN).unwrap();
    assert_eq!(sys.get_factor(&f), i64::MIN);
}

#[test]
fn clamp_bounds_its_input() {
    let mut sys = plain_engine();
    let a = subject(1, 0);
    let f = subject(2, 0);
    sys.add_factor(&a, 3).unwrap();
    sys.add_formula(Formula::new(vec![a], FormulaFn::Clamp { lo: -5, hi: 5 }, f)).unwrap();
    assert_eq!(sys.get_factor(&f), 3);
    sys.set_factor(&a, 10).unwrap();
    assert_eq!(sys.get_factor(&f), 5);
    sys.set_factor(&a, -10).unwrap();
    assert_eq!(sys.get_factor(&f), -5);
}

#[test]
fn sum_saturates_on_overflow() {
    let mut sys = plain_engine();
    let a = subject(1, 0);
    let b = subject(2, 0);
    let f = subject(3, 0);
    sys.add_factor(&a, i64::MAX).unwrap();
    sys.add_factor(&b, i64::MAX).unwrap();
    sys.add_formula(Formula::new(vec![a, b], FormulaFn::Sum, f)).unwrap();
    assert_eq!(sys.get_factor(&f), i64::MAX);
}

#[test]
fn malformed_function_shapes_are_refused() {
    let mut sys = plain_engine();
    let a = subject(1, 0);
    let f = subject(2, 0);
    sys.add_factor(&a, 1).unwrap();
    assert_eq!(
        sys.add_formula(Formula::new(vec![a], FormulaFn::Ratio { num: 1, den: 0 }, f)),
        Err(RegisterError::InvalidFunction)
    );
    assert_eq!(
        sys.add_formula(Formula::new(vec![a], FormulaFn::Clamp { lo: 5, hi: -5 }, f)),
        Err(RegisterError::InvalidFunction)
    );
}

#[test]
fn shapes_needing_an_input_are_refused_without_one() {
    let mut sys = plain_engine();
    let f = subject(1, 0);
    assert_eq!(
        sys.add_formula(Formula::new(Vec::new(), FormulaFn::Ratio { num: 1, den: 2 }, f)),
        Err(RegisterError::MissingInputs)
    );
    assert_eq!(
        sys.add_formula(Formula::new(Vec::new(), FormulaFn::Clamp { lo: 0, hi: 1 }, f)),
        Err(RegisterError::MissingInputs)
    );
}

#[test]
fn output_over_an_existing_factor_is_refused() {
    let mut sys = plain_engine();
    let a = subject(1, 0);
    let b = subject(2, 0);
    sys.add_factor(&a, 1).unwrap();
    sys.add_factor(&b, 2).unwrap();
    assert_eq!(
        sys.add_formula(Formula::new(vec![a], FormulaFn::Sum, b)),
        Err(RegisterError::OutputDefined)
    );
    let f = subject(3, 0);
    sys.add_formula(Formula::new(vec![a], FormulaFn::Sum, f)).unwrap();
    assert_eq!(
        sys.add_formula(Formula::new(vec![a], FormulaFn::Sum, f)),
        Err(RegisterError::OutputDefined)
    );
}

#[test]
fn output_already_read_by_a_formula_is_refused() {
    let mut sys = plain_engine();
    let a = subject(1, 0);
    let f = subject(2, 0);
    sys.add_factor(&a, 1).unwrap();
    // `f` reads `a`, so nothing may publish under `a` afterwards: with
    // `a` still unwritten that could have closed a dependency cycle.
    let mut sys2 = plain_engine();
    let free = subject(3, 0);
    sys2.add_formula(Formula::new(vec![free], FormulaFn::Sum, f)).unwrap();
    assert_eq!(
        sys2.add_formula(Formula::new(vec![f], FormulaFn::Sum, free)),
        Err(RegisterError::OutputInUse)
    );
    sys.add_formula(Formula::new(vec![a], FormulaFn::Sum, f)).unwrap();
    assert_eq!(sys.get_factor(&f), 1);
}

#[test]
fn a_formula_reading_its_own_output_is_refused() {
    let mut sys = plain_engine();
    let f = subject(1, 0);
    assert_eq!(
        sys.add_formula(Formula::new(vec![f], FormulaFn::Sum, f)),
        Err(RegisterError::SelfInput)
    );
}

#[test]
fn unwritten_inputs_read_as_defaults_and_can_appear_later() {
    let mut sys = plain_engine();
    let a = subject(1, 0);
    let f = subject(2, 0);
    sys.add_formula(Formula::new(vec![a], FormulaFn::Sum, f)).unwrap();
    assert_eq!(sys.get_factor(&f), 0);
    sys.add_factor(&a, 9).unwrap();
    assert_eq!(sys.get_factor(&f), 9);
}

#[test]
fn formula_over_constant_inputs() {
    let mut sys = plain_engine();
    let a = subject(1, 0);
    let b = subject(2, 0);
    let f = subject(3, 0);
    sys.insert_factor(&a, Factor::Constant(40)).unwrap();
    sys.insert_factor(&b, Factor::Constant(2)).unwrap();
    sys.add_formula(Formula::new(vec![a, b], FormulaFn::Sum, f)).unwrap();
    assert_eq!(sys.get_factor(&f), 42);
}
