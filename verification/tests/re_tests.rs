use automata::auto::Auto;
use automata::re::Re;

#[test]
fn compile_and_match() {
    // (a|b)*c
    let bp = Re::concat(
        Re::zero_or_more(Re::either(Re::plain('a'), Re::plain('b'))),
        Re::plain('c'),
    )
    .compile();
    let mut nfa = bp.create();
    for c in "ababbabc".chars() {
        assert!(!nfa.is_accepted());
        nfa.trigger(&c);
        assert!(!nfa.is_dead());
    }
    assert!(nfa.is_accepted());
    nfa.trigger(&'d');
    assert!(nfa.is_dead());
}

#[test]
fn auto_trait_test() {
    let bp = Re::concat(
        Re::zero_or_more(Re::either(Re::plain('a'), Re::plain('b'))),
        Re::plain('c'),
    )
    .compile();
    let good: Vec<char> = "ababbabc".chars().collect();
    let bad: Vec<char> = "ababbabd".chars().collect();
    assert!(bp.create().test(&good));
    assert!(!bp.create().test(&bad));
}

#[test]
fn wildcard_matches_any_symbol() {
    let bp = Re::concat(Re::plain('x'), Re::wildcard()).compile();
    for probe in ["xa", "xz", "x&"] {
        let seq: Vec<char> = probe.chars().collect();
        assert!(bp.create().test(&seq));
    }
    let too_short: Vec<char> = "x".chars().collect();
    assert!(!bp.create().test(&too_short));
}
