use factor_engine::{
    Factor, FactorDecay, FactorError, Formula, FormulaFn, FormulaSystem, KindPolicy, Subject,
};

fn subject(entity: u64, kind: u32) -> Subject {
    Subject { entity, kind }
}

fn plain_engine() -> FormulaSystem {
    FormulaSystem::new(Vec::new()).unwrap()
}

#[test]
fn never_written_subject_reads_as_declared_default() {
    let table = vec![
        KindPolicy { default_value: 7, decay: FactorDecay::NoDecay },
        KindPolicy { default_value: -3, decay: FactorDecay::Linear(1) },
    ];
    let mut sys = FormulaSystem::new(table).unwrap();
    assert_eq!(sys.get_factor(&subject(1, 0)), 7);
    assert_eq!(sys.get_factor(&subject(2, 1)), -3);
    // A kind beyond the table falls back to the neutral default.
    assert_eq!(sys.get_factor(&subject(3, 9)), 0);
}

#[test]
fn add_factor_is_additive() {
    let s = subject(4, 0);
    let mut one = plain_engine();
    one.add_factor(&s, 11).unwrap();
    one.add_factor(&s, 31).unwrap();
    let mut both = plain_engine();
    both.add_factor(&s, 42).unwrap();
    assert_eq!(one.get_factor(&s), 42);
    assert_eq!(one.get_factor(&s), both.get_factor(&s));
}

#[test]
fn add_factor_starts_from_the_kind_default() {
    let table = vec![KindPolicy { default_value: 100, decay: FactorDecay::NoDecay }];
    let mut sys = FormulaSystem::new(table).unwrap();
    let s = subject(1, 0);
    assert_eq!(sys.add_factor(&s, 25).unwrap(), 125);
    assert_eq!(sys.get_factor(&s), 125);
}

#[test]
fn add_factor_saturates_at_the_integer_range() {
    let mut sys = plain_engine();
    let s = subject(1, 0);
    sys.add_factor(&s, i64::MAX).unwrap();
    assert_eq!(sys.add_factor(&s, i64::MAX).unwrap(), i64::MAX);
    let t = subject(2, 0);
    sys.add_factor(&t, i64::MIN).unwrap();
    assert_eq!(sys.add_factor(&t, -1).unwrap(), i64::MIN);
}

#[test]
fn set_factor_overwrites_the_stored_value() {
    let mut sys = plain_engine();
    let s = subject(1, 0);
    sys.add_factor(&s, 10).unwrap();
    assert_eq!(sys.set_factor(&s, 3).unwrap(), 3);
    assert_eq!(sys.get_factor(&s), 3);
}

#[test]
fn clear_factor_returns_the_value_exactly_once() {
    let mut sys = plain_engine();
    let s = subject(1, 0);
    sys.add_factor(&s, 55).unwrap();
    assert_eq!(sys.clear_factor(&s).unwrap(), 55);
    // After the clear the subject reads as its default again.
    assert_eq!(sys.get_factor(&s), 0);
    assert_eq!(sys.clear_factor(&s).unwrap(), 0);
}

#[test]
fn reads_are_idempotent() {
    let mut sys = plain_engine();
    let a = subject(1, 0);
    let f = subject(2, 0);
    sys.add_factor(&a, 17).unwrap();
    sys.add_formula(Formula::new(vec![a], FormulaFn::Ratio { num: 3, den: 2 }, f)).unwrap();
    let missing = subject(9, 4);
    assert_eq!(sys.get_factor(&a), sys.get_factor(&a));
    assert_eq!(sys.get_factor(&f), sys.get_factor(&f));
    assert_eq!(sys.get_factor(&missing), sys.get_factor(&missing));
}

#[test]
fn sum_formula_tracks_its_inputs() {
    let mut sys = plain_engine();
    let a = subject(1, 0);
    let b = subject(2, 0);
    let f = subject(3, 0);
    sys.add_factor(&a, 10).unwrap();
    sys.add_factor(&b, 32).unwrap();
    sys.add_formula(Formula::new(vec![a, b], FormulaFn::Sum, f)).unwrap();
    assert_eq!(sys.get_factor(&f), 42);
    // Mutating one input moves the formula's value by the delta,
    // without any explicit recompute call.
    sys.add_factor(&a, 5).unwrap();
    assert_eq!(sys.get_factor(&f), 47);
    sys.add_factor(&b, -32).unwrap();
    assert_eq!(sys.get_factor(&f), 15);
}

#[test]
fn leaf_formula_updates_on_later_read() {
    let mut sys = plain_engine();
    let a = subject(1, 0);
    let f = subject(2, 0);
    sys.add_factor(&a, 8).unwrap();
    sys.add_formula(Formula::new(vec![a], FormulaFn::Sum, f)).unwrap();
    assert_eq!(sys.get_factor(&f), 8);
    // The formula is a leaf: the mutation only marks it dirty, and the
    // next read recomputes it.
    sys.add_factor(&a, 4).unwrap();
    assert_eq!(sys.get_factor(&f), 12);
    assert_eq!(sys.get_factor(&f), 12);
}

#[test]
fn formula_chain_stays_consistent() {
    let mut sys = plain_engine();
    let a = subject(1, 0);
    let b = subject(2, 0);
    let f = subject(3, 0);
    let g = subject(4, 0);
    sys.add_factor(&a, 6).unwrap();
    sys.add_factor(&b, 100).unwrap();
    sys.add_formula(Formula::new(vec![a], FormulaFn::Ratio { num: 2, den: 1 }, f)).unwrap();
    sys.add_formula(Formula::new(vec![f, b], FormulaFn::Sum, g)).unwrap();
    assert_eq!(sys.get_factor(&f), 12);
    assert_eq!(sys.get_factor(&g), 112);
    sys.add_factor(&a, 3).unwrap();
    assert_eq!(sys.get_factor(&g), 118);
    assert_eq!(sys.get_factor(&f), 18);
}

#[test]
fn unchanged_intermediate_value_keeps_downstream_consistent() {
    let mut sys = plain_engine();
    let a = subject(1, 0);
    let c = subject(2, 0);
    let f = subject(3, 0);
    let g = subject(4, 0);
    sys.add_factor(&a, 20).unwrap();
    sys.add_factor(&c, 1).unwrap();
    sys.add_formula(Formula::new(vec![a], FormulaFn::Clamp { lo: 0, hi: 10 }, f)).unwrap();
    sys.add_formula(Formula::new(vec![f, c], FormulaFn::Sum, g)).unwrap();
    assert_eq!(sys.get_factor(&f), 10);
    assert_eq!(sys.get_factor(&g), 11);
    // A further increase of `a` leaves the clamped value unchanged, so
    // propagation stops there; everything still reads consistently.
    sys.add_factor(&a, 15).unwrap();
    assert_eq!(sys.get_factor(&f), 10);
    assert_eq!(sys.get_factor(&g), 11);
    sys.add_factor(&a, -30).unwrap();
    assert_eq!(sys.get_factor(&f), 5);
    assert_eq!(sys.get_factor(&g), 6);
}

#[test]
fn duplicate_inputs_count_twice() {
    let mut sys = plain_engine();
    let a = subject(1, 0);
    let f = subject(2, 0);
    sys.add_factor(&a, 21).unwrap();
    sys.add_formula(Formula::new(vec![a, a], FormulaFn::Sum, f)).unwrap();
    assert_eq!(sys.get_factor(&f), 42);
    sys.add_factor(&a, 1).unwrap();
    assert_eq!(sys.get_factor(&f), 44);
}

#[test]
fn end_to_end_pressure_scenario() {
    let mut sys = plain_engine();
    let cc = subject(1, 0);
    let pressure = subject(1, 1);
    sys.insert_factor(&cc, Factor::Constant(100)).unwrap();
    sys.add_formula(Formula::new(vec![cc], FormulaFn::Ratio { num: 1, den: 2 }, pressure))
        .unwrap();
    assert_eq!(sys.get_factor(&pressure), 50);
    sys.add_factor(&cc, 100).unwrap();
    assert_eq!(sys.get_factor(&pressure), 100);
}

#[test]
fn get_formulae_lists_dependents_in_registration_order() {
    let mut sys = plain_engine();
    let a = subject(1, 0);
    let f = subject(2, 0);
    let g = subject(3, 0);
    sys.add_factor(&a, 1).unwrap();
    let id_f = sys.add_formula(Formula::new(vec![a], FormulaFn::Sum, f)).unwrap();
    let id_g = sys.add_formula(Formula::new(vec![a], FormulaFn::Sum, g)).unwrap();
    let deps = sys.get_formulae(&a);
    assert_eq!(deps, vec![id_f, id_g]);
    assert!(sys.get_formulae(&f).is_empty());
}

#[test]
fn duplicate_inputs_are_indexed_once() {
    let mut sys = plain_engine();
    let a = subject(1, 0);
    let f = subject(2, 0);
    sys.add_factor(&a, 1).unwrap();
    let id = sys.add_formula(Formula::new(vec![a, a], FormulaFn::Sum, f)).unwrap();
    assert_eq!(sys.get_formulae(&a), vec![id]);
}

#[test]
fn subjects_are_independent_across_entities_and_kinds() {
    let mut sys = plain_engine();
    sys.add_factor(&subject(1, 0), 10).unwrap();
    sys.add_factor(&subject(1, 1), 20).unwrap();
    sys.add_factor(&subject(2, 0), 30).unwrap();
    assert_eq!(sys.get_factor(&subject(1, 0)), 10);
    assert_eq!(sys.get_factor(&subject(1, 1)), 20);
    assert_eq!(sys.get_factor(&subject(2, 0)), 30);
    sys.clear_factor(&subject(1, 0)).unwrap();
    assert_eq!(sys.get_factor(&subject(1, 1)), 20);
    assert_eq!(sys.get_factor(&subject(2, 0)), 30);
}

#[test]
fn lookup_returns_the_registered_definition() {
    let mut sys = plain_engine();
    let a = subject(1, 0);
    let f = subject(2, 0);
    sys.add_factor(&a, 1).unwrap();
    let id = sys.add_formula(Formula::new(vec![a], FormulaFn::Ratio { num: 2, den: 3 }, f))
        .unwrap();
    let def = sys.lookup(id);
    assert_eq!(def.inputs, vec![a]);
    assert_eq!(def.inner_fn, FormulaFn::Ratio { num: 2, den: 3 });
    assert_eq!(def.subject, f);
}

#[test]
fn get_formula_returns_the_backing_id() {
    let mut sys = plain_engine();
    let a = subject(1, 0);
    let f = subject(2, 0);
    sys.add_factor(&a, 1).unwrap();
    let id = sys.add_formula(Formula::new(vec![a], FormulaFn::Sum, f)).unwrap();
    assert_eq!(sys.get_formula(&f), id);
}

#[test]
fn mutating_a_formula_backed_subject_is_refused() {
    let mut sys = plain_engine();
    let a = subject(1, 0);
    let f = subject(2, 0);
    sys.add_factor(&a, 1).unwrap();
    sys.add_formula(Formula::new(vec![a], FormulaFn::Sum, f)).unwrap();
    assert_eq!(sys.add_factor(&f, 1), Err(FactorError::FormulaBacked));
    assert_eq!(sys.set_factor(&f, 1), Err(FactorError::FormulaBacked));
    assert_eq!(sys.clear_factor(&f), Err(FactorError::FormulaBacked));
    // The value is untouched by the refused calls.
    assert_eq!(sys.get_factor(&f), 1);
}
