use one_variable::heads::Heads;

#[test]
fn first_demand_forces_its_symbol() {
    assert_eq!(Heads::Unconstrained.record(7), Heads::Forced(7));
}

#[test]
fn same_demand_again_changes_nothing() {
    assert_eq!(Heads::Forced(7).record(7), Heads::Forced(7));
}

#[test]
fn different_demand_is_a_conflict() {
    assert_eq!(Heads::Forced(7).record(8), Heads::Conflict);
}

#[test]
fn conflict_stays() {
    assert_eq!(Heads::Conflict.record(7), Heads::Conflict);
    assert_eq!(Heads::Forced(1).record(2).record(1), Heads::Conflict);
}
