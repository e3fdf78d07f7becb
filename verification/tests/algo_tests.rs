use automata::algo::determinize;
use automata::auto::Auto;
use automata::nfa::NFAutoBuilder;
use automata::re::Re;

#[test]
fn correct_auto() {
    // (a|b)*.(c|d)
    let auto = determinize(
        &Re::concat(
            Re::zero_or_more(Re::either(Re::plain('a'), Re::plain('b'))),
            Re::concat(Re::wildcard(), Re::either(Re::plain('c'), Re::plain('d'))),
        )
        .compile(),
    );
    let a: Vec<char> = "abababb&c".chars().collect();
    let b: Vec<char> = "ababbba?d".chars().collect();
    let c: Vec<char> = "ababbbe-d".chars().collect();
    assert!(auto.create().test(&a));
    assert!(auto.create().test(&b));
    assert!(!auto.create().test(&c));
}

#[test]
fn determinized_agrees_with_nfa() {
    // The determinized automaton decides exactly the same sequences as the
    // NFA walker, wildcard edges included.
    let plain_only = Re::concat(
        Re::zero_or_more(Re::either(Re::plain('a'), Re::plain('b'))),
        Re::plain('c'),
    )
    .compile();
    let with_wildcard = Re::concat(
        Re::zero_or_more(Re::either(Re::plain('a'), Re::plain('b'))),
        Re::concat(Re::wildcard(), Re::plain('c')),
    )
    .compile();
    for nfa in [&plain_only, &with_wildcard] {
        let dfa = determinize(nfa);
        for probe in ["", "c", "abc", "ababbabc", "ababbabd", "cc", "ca", "bac", "aac", "a&c"] {
            let seq: Vec<char> = probe.chars().collect();
            assert_eq!(nfa.create().test(&seq), dfa.create().test(&seq), "{}", probe);
        }
    }
}

#[test]
fn plain_and_wildcard_from_one_state_agree() {
    // From the start both a plain edge on 'a' and a wildcard edge fire; the
    // labeled DFA edge must keep the wildcard destinations too, so both
    // walkers accept the single symbol 'a'.
    let nfa = NFAutoBuilder::start(0u64)
        .connect(0, 'a', 1)
        .connect_wildcard(0, 2)
        .accept(2)
        .finalize();
    let dfa = determinize(&nfa);
    let one_a: Vec<char> = "a".chars().collect();
    let one_b: Vec<char> = "b".chars().collect();
    assert!(nfa.create().test(&one_a));
    assert!(dfa.create().test(&one_a));
    assert!(nfa.create().test(&one_b));
    assert!(dfa.create().test(&one_b));
}

#[test]
fn determinizer_output_is_functional() {
    let dfa = determinize(
        &Re::zero_or_more(Re::either(Re::plain('a'), Re::plain('b'))).compile(),
    );
    let conns = dfa.iterate_connections();
    for i in 0..conns.len() {
        for j in 0..conns.len() {
            if i != j {
                let (f1, l1, t1) = conns[i];
                let (f2, l2, t2) = conns[j];
                assert!(!(f1 == f2 && l1 == l2 && t1 != t2));
            }
        }
    }
    let empty: Vec<char> = Vec::new();
    assert!(dfa.create().test(&empty));
}
