use automata::DFAutoBuilder;

#[test]
fn lib_build_auto() {
    let _builder = DFAutoBuilder::with_start_state(0)
        .trans(0, "0 -> 1", 1)
        .accept(1);
}

#[test]
fn lib_build_auto_with_redundant_info() {
    let _builder = DFAutoBuilder::with_start_state(0)
        .trans(0, "0 -> 1", 1)
        .trans(0, "0 -> 1", 1)
        .accept(1)
        .accept(1);
}

#[test]
fn lib_blueprint() {
    let dfa = DFAutoBuilder::with_start_state(0)
        .trans(0, "0 -> 1", 1)
        .trans(0, "0 -> 0", 0)
        .trans(1, "1 -> 1", 1)
        .accept(1)
        .finalize();
    assert_eq!(dfa.start_state(), &0);
    let mut acc = dfa.accept_state_set().clone();
    acc.sort();
    assert_eq!(acc, vec![1]);
    assert_eq!(dfa.iterate_transitions().len(), 3);
}

#[test]
fn lib_trigger_auto() {
    let dfa = DFAutoBuilder::with_start_state(0)
        .trans(0, "0 -> 1", 1)
        .trans(0, "0 -> 0", 0)
        .trans(1, "1 -> 1", 1)
        .accept(1)
        .finalize();
    let mut auto = dfa.create();
    assert_eq!(auto.current_state(), &0);
    assert!(!auto.is_accepted());
    assert!(auto.test_trigger(&"0 -> 0"));
    assert!(!auto.test_trigger(&"0 -> 2"));
    auto.trigger(&"0 -> 1");
    assert_eq!(auto.current_state(), &1);
    assert!(auto.is_accepted());
}
