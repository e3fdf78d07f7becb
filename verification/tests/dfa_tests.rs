use automata::auto::Auto;
use automata::dfa::DFAutoBuilder;

#[test]
fn dfa_build_auto() {
    let _builder = DFAutoBuilder::start(0).connect(0, "0 -> 1", 1).accept(1);
}

#[test]
fn dfa_build_auto_with_redundant_info() {
    let _builder = DFAutoBuilder::start(0)
        .connect(0, "0 -> 1", 1)
        .connect(0, "0 -> 1", 1)
        .accept(1)
        .accept(1);
}

#[test]
fn dfa_blueprint() {
    let dfa = DFAutoBuilder::start(0)
        .connect(0, "0 -> 1", 1)
        .connect(0, "0 -> 0", 0)
        .connect(1, "1 -> 1", 1)
        .accept(1)
        .finalize();
    assert_eq!(dfa.start_state(), &0);
    let mut acc = dfa.accept_state_set().clone();
    acc.sort();
    assert_eq!(acc, vec![1]);
    assert_eq!(dfa.iterate_connections().len(), 3);
}

#[test]
fn dfa_trigger_auto() {
    let dfa = DFAutoBuilder::start(0)
        .connect(0, "0 -> 1", 1)
        .connect(0, "0 -> 0", 0)
        .connect(1, "1 -> 1", 1)
        .accept(1)
        .finalize();
    let mut auto = dfa.create();
    assert_eq!(auto.current_state(), &0);
    assert!(!auto.is_accepted());
    assert!(auto.test_trigger(&"0 -> 0"));
    assert!(!auto.test_trigger(&"0 -> 2"));
    auto.trigger(&"0 -> 1");
    assert_eq!(auto.current_state(), &1);
    assert!(auto.is_accepted());
}

#[test]
fn trigger_fallback() {
    let dfa = DFAutoBuilder::start(0)
        .connect(0, "0 -> 1", 1)
        .connect(1, "1 -> 2", 2)
        .connect(2, "2 -> 3", 3)
        .accept(3)
        .connect_fallback(0, 0)
        .connect_fallback(1, 0)
        .connect_fallback(2, 0)
        .connect_fallback(3, 3)
        .finalize();
    let mut auto = dfa.create();
    for t in [
        "0 -> 1", "1 -> 2", "error", "error", "0 -> 1", "error", "0 -> 1", "1 -> 2", "2 -> 3",
    ]
    .into_iter()
    {
        assert!(!auto.is_accepted());
        assert!(auto.test_trigger(&t));
        auto.trigger(&t);
    }
    assert!(auto.is_accepted());
    assert!(auto.test_trigger(&"error"));
}

#[test]
fn fallback_prefers_plain_edge() {
    let dfa = DFAutoBuilder::start(0)
        .connect(0, 'a', 1)
        .connect_fallback(0, 2)
        .accept(1)
        .finalize();
    let mut via_plain = dfa.create();
    via_plain.trigger(&'a');
    assert_eq!(via_plain.current_state(), &1);
    let mut via_fallback = dfa.create();
    via_fallback.trigger(&'b');
    assert_eq!(via_fallback.current_state(), &2);
}

#[test]
fn dfa_test_and_search() {
    let dfa = DFAutoBuilder::start(0)
        .connect(0, 'a', 1)
        .connect(1, 'b', 0)
        .accept(1)
        .finalize();
    let seq: Vec<char> = "aba".chars().collect();
    assert!(dfa.create().test(&seq));
    let empty: Vec<char> = Vec::new();
    assert!(!dfa.create().test(&empty));
    let blocked: Vec<char> = "abba".chars().collect();
    assert!(!dfa.create().test(&blocked));
    assert!(dfa.create().search(&blocked));
}
