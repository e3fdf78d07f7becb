use automata::auto::Auto;
use automata::nfa::{ConnType, NFAutoBuilder};

fn sorted(v: &Vec<i32>) -> Vec<i32> {
    let mut s = v.clone();
    s.sort();
    s
}

#[test]
fn trigger_nfa() {
    // ab*a
    let bp = NFAutoBuilder::start(0)
        .connect(0, 'a', 1)
        .connect_void(1, 2)
        .connect(2, 'b', 3)
        .connect_void(3, 4)
        .connect_void(3, 2)
        .connect_void(1, 4)
        .connect(4, 'a', 5)
        .accept(5)
        .finalize();
    let mut auto = bp.create();
    assert_eq!(sorted(auto.current_state_set()), vec![0]);
    assert!(!auto.is_dead());
    assert!(!auto.is_accepted());
    auto.trigger(&'a');
    assert_eq!(sorted(auto.current_state_set()), vec![1, 2, 4]);
    assert!(!auto.is_accepted());
    auto.trigger(&'b');
    assert_eq!(sorted(auto.current_state_set()), vec![2, 3, 4]);
    auto.trigger(&'b');
    assert_eq!(sorted(auto.current_state_set()), vec![2, 3, 4]);
    auto.trigger(&'a');
    assert_eq!(sorted(auto.current_state_set()), vec![5]);
    assert!(auto.is_accepted());
    auto.trigger(&'c');
    assert!(auto.is_dead());
}

#[test]
fn wildcard_connection() {
    // a.*a
    let bp = NFAutoBuilder::start(0)
        .connect(0, 'a', 1)
        .connect_void(1, 2)
        .connect_wildcard(2, 3)
        .connect_void(3, 4)
        .connect_void(3, 2)
        .connect_void(1, 4)
        .connect(4, 'a', 5)
        .accept(5)
        .finalize();
    let mut auto = bp.create();
    for c in "abcdefga".chars() {
        assert!(!auto.is_accepted());
        auto.trigger(&c);
        assert!(!auto.is_dead());
    }
    assert!(auto.is_accepted());
}

#[test]
fn create_closes_under_void_edges() {
    let bp = NFAutoBuilder::start(0)
        .connect_void(0, 1)
        .connect_void(1, 2)
        .connect(2, 'a', 3)
        .accept(3)
        .finalize();
    let auto = bp.create();
    assert_eq!(sorted(auto.current_state_set()), vec![0, 1, 2]);
}

#[test]
fn dead_walker_stays_dead() {
    let bp = NFAutoBuilder::start(0).connect(0, 'a', 1).accept(1).finalize();
    let mut auto = bp.create();
    auto.trigger(&'b');
    assert!(auto.is_dead());
    auto.trigger(&'a');
    assert!(auto.is_dead());
    assert!(!auto.is_accepted());
}

#[test]
fn iterate_connections_round_trip() {
    let bp = NFAutoBuilder::start(0)
        .connect(0, 'a', 1)
        .connect(0, 'a', 1)
        .connect(0, 'a', 2)
        .connect_void(1, 2)
        .connect_void(1, 2)
        .connect_wildcard(2, 3)
        .accept(3)
        .finalize();
    let conns = bp.iterate_connections();
    assert_eq!(conns.len(), 4);
    let mut plain = 0;
    let mut voids = 0;
    let mut wilds = 0;
    for (from, kind, to) in conns.iter() {
        match kind {
            ConnType::Plain(l) => {
                plain += 1;
                assert_eq!(*from, 0);
                assert_eq!(*l, 'a');
                assert!(*to == 1 || *to == 2);
            }
            ConnType::Void => {
                voids += 1;
                assert_eq!((*from, *to), (1, 2));
            }
            ConnType::Wildcard => {
                wilds += 1;
                assert_eq!((*from, *to), (2, 3));
            }
        }
    }
    assert_eq!((plain, voids, wilds), (2, 1, 1));
}

#[test]
fn nfa_search_finds_accepting_prefix() {
    // ab, searched inside longer input
    let bp = NFAutoBuilder::start(0)
        .connect(0, 'a', 1)
        .connect(1, 'b', 2)
        .accept(2)
        .finalize();
    let hit: Vec<char> = "abzzz".chars().collect();
    let miss: Vec<char> = "azb".chars().collect();
    assert!(bp.create().search(&hit));
    assert!(!bp.create().search(&miss));
    assert!(!bp.create().test(&hit));
}
