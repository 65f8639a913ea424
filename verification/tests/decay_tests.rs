use factor_engine::{
    DECAY_DEN, Factor, FactorDecay, FactorError, Formula, FormulaFn, FormulaSystem, KindPolicy,
    Subject,
};

fn subject(entity: u64, kind: u32) -> Subject {
    Subject { entity, kind }
}

fn plain_engine() -> FormulaSystem {
    FormulaSystem::new(Vec::new()).unwrap()
}

#[test]
fn linear_decay_walks_to_the_target_without_crossing() {
    let mut sys = plain_engine();
    let s = subject(1, 0);
    sys.insert_factor(
        &s,
        Factor::Decay { value: 100, target: 40, policy: FactorDecay::Linear(25) },
    )
    .unwrap();
    sys.decay_tick();
    assert_eq!(sys.get_factor(&s), 75);
    sys.decay_tick();
    assert_eq!(sys.get_factor(&s), 50);
    sys.decay_tick();
    assert_eq!(sys.get_factor(&s), 40);
    sys.decay_tick();
    assert_eq!(sys.get_factor(&s), 40);
}

#[test]
fn linear_decay_rises_toward_a_higher_target() {
    let mut sys = plain_engine();
    let s = subject(1, 0);
    sys.insert_factor(&s, Factor::Decay { value: -10, target: 5, policy: FactorDecay::Linear(7) })
        .unwrap();
    sys.decay_tick();
    assert_eq!(sys.get_factor(&s), -3);
    sys.decay_tick();
    assert_eq!(sys.get_factor(&s), 4);
    sys.decay_tick();
    assert_eq!(sys.get_factor(&s), 5);
}

#[test]
fn exponential_decay_removes_the_rate_fraction() {
    let mut sys = plain_engine();
    let s = subject(1, 0);
    let half = DECAY_DEN / 2;
    sys.insert_factor(
        &s,
        Factor::Decay { value: 1000, target: 0, policy: FactorDecay::Exponential(half) },
    )
    .unwrap();
    sys.decay_tick();
    assert_eq!(sys.get_factor(&s), 500);
    sys.decay_tick();
    assert_eq!(sys.get_factor(&s), 250);
    sys.decay_tick();
    assert_eq!(sys.get_factor(&s), 125);
}

#[test]
fn exponential_decay_at_the_hundredth_rate() {
    // The prominence decay rate of the simulation: one percent per tick.
    let mut sys = plain_engine();
    let s = subject(1, 0);
    let hundredth = DECAY_DEN / 100;
    sys.insert_factor(
        &s,
        Factor::Decay { value: 300, target: 0, policy: FactorDecay::Exponential(hundredth) },
    )
    .unwrap();
    sys.decay_tick();
    assert_eq!(sys.get_factor(&s), 297);
    sys.decay_tick();
    // Truncating division: 297 - 297/100 = 297 - 2.
    assert_eq!(sys.get_factor(&s), 295);
}

#[test]
fn constants_and_no_decay_factors_hold_still() {
    let table = vec![KindPolicy { default_value: 0, decay: FactorDecay::NoDecay }];
    let mut sys = FormulaSystem::new(table).unwrap();
    let c = subject(1, 0);
    let d = subject(2, 0);
    sys.insert_factor(&c, Factor::Constant(9)).unwrap();
    sys.add_factor(&d, 13).unwrap();
    sys.decay_tick();
    sys.decay_tick();
    assert_eq!(sys.get_factor(&c), 9);
    assert_eq!(sys.get_factor(&d), 13);
}

#[test]
fn decay_propagates_into_formulas() {
    let mut sys = plain_engine();
    let a = subject(1, 0);
    let b = subject(2, 0);
    let f = subject(3, 0);
    sys.insert_factor(&a, Factor::Decay { value: 30, target: 0, policy: FactorDecay::Linear(10) })
        .unwrap();
    sys.insert_factor(&b, Factor::Constant(5)).unwrap();
    sys.add_formula(Formula::new(vec![a, b], FormulaFn::Sum, f)).unwrap();
    assert_eq!(sys.get_factor(&f), 35);
    sys.decay_tick();
    assert_eq!(sys.get_factor(&f), 25);
    sys.decay_tick();
    assert_eq!(sys.get_factor(&f), 15);
}

#[test]
fn implicit_factors_decay_under_their_kind_policy() {
    let table = vec![KindPolicy { default_value: 0, decay: FactorDecay::Linear(2) }];
    let mut sys = FormulaSystem::new(table).unwrap();
    let s = subject(1, 0);
    sys.add_factor(&s, 5).unwrap();
    sys.decay_tick();
    assert_eq!(sys.get_factor(&s), 3);
    sys.decay_tick();
    sys.decay_tick();
    assert_eq!(sys.get_factor(&s), 0);
}

#[test]
fn set_factor_keeps_the_decay_policy() {
    let mut sys = plain_engine();
    let s = subject(1, 0);
    sys.insert_factor(&s, Factor::Decay { value: 20, target: 0, policy: FactorDecay::Linear(5) })
        .unwrap();
    sys.set_factor(&s, 12).unwrap();
    sys.decay_tick();
    assert_eq!(sys.get_factor(&s), 7);
}

#[test]
fn implicit_factors_rise_to_target_zero_from_below() {
    let table = vec![KindPolicy { default_value: 0, decay: FactorDecay::Linear(2) }];
    let mut sys = FormulaSystem::new(table).unwrap();
    let s = subject(1, 0);
    sys.add_factor(&s, -5).unwrap();
    sys.decay_tick();
    assert_eq!(sys.get_factor(&s), -3);
    sys.decay_tick();
    sys.decay_tick();
    assert_eq!(sys.get_factor(&s), 0);
}

#[test]
fn out_of_range_decay_rates_are_refused() {
    let mut sys = plain_engine();
    let s = subject(1, 0);
    assert_eq!(
        sys.insert_factor(
            &s,
            Factor::Decay { value: 1, target: 0, policy: FactorDecay::Linear(-1) },
        ),
        Err(FactorError::InvalidDecay)
    );
    assert_eq!(
        sys.insert_factor(
            &s,
            Factor::Decay { value: 1, target: 0, policy: FactorDecay::Exponential(DECAY_DEN + 1) },
        ),
        Err(FactorError::InvalidDecay)
    );
    let bad_table = vec![KindPolicy { default_value: 0, decay: FactorDecay::Exponential(-5) }];
    assert!(matches!(FormulaSystem::new(bad_table), Err(FactorError::InvalidDecay)));
}

#[test]
fn inserting_over_an_existing_factor_is_refused() {
    let mut sys = plain_engine();
    let s = subject(1, 0);
    sys.insert_factor(&s, Factor::Constant(1)).unwrap();
    assert_eq!(
        sys.insert_factor(&s, Factor::Constant(2)),
        Err(FactorError::AlreadyPresent)
    );
    assert_eq!(sys.get_factor(&s), 1);
}

#[test]
fn inserting_a_formula_variant_is_refused() {
    let mut sys = plain_engine();
    let a = subject(1, 0);
    let f = subject(2, 0);
    sys.add_factor(&a, 1).unwrap();
    let id = sys.add_formula(Formula::new(vec![a], FormulaFn::Sum, f)).unwrap();
    let fresh = subject(3, 0);
    assert_eq!(
        sys.insert_factor(&fresh, Factor::Formula(id)),
        Err(FactorError::FormulaBacked)
    );
}
