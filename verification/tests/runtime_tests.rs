use crdt_genome::config::Config;
use crdt_genome::genome::Genome;
use crdt_genome::mutate::peer_ports;
use crdt_genome::op::{Dot, Op};
use crdt_genome::state::SharedState;
use crdt_genome::verify::count_matches;

#[test]
fn peer_ports_follow_the_addressing_convention() {
    let c = Config { actor_id: 1, actor_count: 3, base_port_number: 8000 };
    assert_eq!(peer_ports(&c), vec![8000, 8002]);

    let lone = Config { actor_id: 0, actor_count: 1, base_port_number: 9000 };
    assert_eq!(peer_ports(&lone), Vec::<usize>::new());
}

#[test]
fn match_count_is_the_number_of_equal_serializations() {
    let local = "0001ff".to_string();
    let remotes = vec![
        "0001ff".to_string(),
        "".to_string(),
        "0001ff".to_string(),
        "00".to_string(),
    ];
    assert_eq!(count_matches(&local, &remotes), 2);

    let empty_local = "".to_string();
    assert_eq!(count_matches(&empty_local, &Vec::new()), 0);
    // an unreachable peer reported as an empty body matches only an empty
    // local state
    assert_eq!(count_matches(&empty_local, &vec!["".to_string()]), 1);
}

#[test]
fn exhausted_counters_stop_generation_for_that_actor_only() {
    let top = Op {
        id: Dot { actor: 0, counter: u64::MAX },
        value: 1,
        predecessor: None,
    };

    let mut g = Genome::new();
    g.apply(top);
    assert!(!g.append_available(0));
    assert!(g.append_available(1));

    let shared = SharedState::new();
    shared.apply_op(top);
    assert!(shared.generate(5, 0).is_none());
    assert!(shared.generate(5, 1).is_some());
}

#[test]
fn shared_state_serves_mutation_and_reads() {
    let shared = SharedState::new();
    assert_eq!(shared.read_serialized(), "");

    let op = shared.generate(7, 0).expect("a fresh replica has counters left");
    assert_eq!(op.value, 7);
    assert_eq!(op.id.actor, 0);
    assert_eq!(shared.read_serialized(), "07");

    // a duplicate delivery of the broadcast operation changes nothing
    shared.apply_op(op);
    assert_eq!(shared.read_serialized(), "07");

    // an operation generated elsewhere arrives over the transport
    let mut remote = Genome::new();
    remote.apply(op);
    let remote_op = remote.append(9, 1);
    shared.apply_op(remote_op);
    assert_eq!(shared.read_serialized(), "0709");
}
