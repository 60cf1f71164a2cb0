use handel::{Aggregation, BitSet, Config, ConfigurationError, Contribution};

fn config(delay: u64, timeout: u64) -> Config {
    Config { peers_per_tick: 2, level_start_delay_ticks: delay, overall_timeout_ticks: timeout }
}

fn members_of(c: &Contribution) -> Vec<usize> {
    let bits = c.contributors();
    (0..bits.len()).filter(|&i| bits.contains(i)).collect()
}

/// Runs `ticks` rounds of a fully connected in-memory network of `n` nodes.
/// Silent nodes never submit or send. Each round, every node ticks on the
/// state it has, and then the round's updates are delivered.
fn run_network(n: usize, silent: &[usize], ticks: usize, cfg: Config) -> Vec<Aggregation> {
    let mut nodes: Vec<Aggregation> = (0..n)
        .map(|i| Aggregation::new(i, n, cfg).unwrap())
        .collect();
    for i in 0..n {
        if !silent.contains(&i) {
            nodes[i]
                .submit_own(Contribution::individual(n, i, vec![i as u8]))
                .unwrap();
        }
    }
    for _ in 0..ticks {
        // One network round: every node ticks on the state it has, then all
        // updates of the round are delivered.
        let mut in_flight = Vec::new();
        for i in 0..n {
            if silent.contains(&i) {
                continue;
            }
            for u in nodes[i].tick() {
                in_flight.push((i, u));
            }
        }
        for (from, u) in in_flight {
            nodes[u.to].on_update(from, u.level, u.contribution);
        }
    }
    nodes
}

#[test]
fn four_honest_nodes_converge_within_three_ticks() {
    let nodes = run_network(4, &[], 3, config(100, 50));
    let result = nodes[0].result().expect("top level should be complete");
    assert_eq!(members_of(&result), vec![0, 1, 2, 3]);
}

#[test]
fn a_silent_peer_leaves_a_level_incomplete() {
    // Peer 2 never speaks: node 0's level 2 misses contributor 2 forever,
    // and the result at the overall timeout covers everyone else.
    let cfg = config(2, 20);
    let nodes = run_network(4, &[2], 25, cfg);
    assert!(!nodes[0].levels()[2].state.complete);
    let result = nodes[0].result().expect("timeout yields the best known");
    assert_eq!(members_of(&result), vec![0, 1, 3]);
}

#[test]
fn seven_nodes_converge_to_full_coverage() {
    let nodes = run_network(7, &[], 10, config(2, 50));
    let result = nodes[0].result().expect("top level should be complete");
    assert_eq!(members_of(&result), vec![0, 1, 2, 3, 4, 5, 6]);
}

#[test]
fn single_node_completes_on_submission() {
    let mut node = Aggregation::new(0, 1, config(1, 10)).unwrap();
    assert!(node.result().is_none());
    node.submit_own(Contribution::individual(1, 0, vec![0])).unwrap();
    let result = node.result().expect("the only level is complete");
    assert_eq!(members_of(&result), vec![0]);
}

#[test]
fn all_peers_silent_yields_the_own_singleton() {
    let cfg = config(2, 10);
    let nodes = run_network(4, &[1, 2, 3], 12, cfg);
    let result = nodes[0].result().expect("timeout yields the best known");
    assert_eq!(members_of(&result), vec![0]);
}

#[test]
fn duplicate_delivery_changes_nothing() {
    // Two identical deliveries leave the same state as one.
    let cfg = config(100, 50);
    let mut once = Aggregation::new(0, 4, cfg).unwrap();
    let mut twice = Aggregation::new(0, 4, cfg).unwrap();
    for node in [&mut once, &mut twice] {
        node.submit_own(Contribution::individual(4, 0, vec![0])).unwrap();
    }
    let mut bits = BitSet::new(4);
    bits.insert(2);
    bits.insert(3);
    let c = Contribution::new(bits, vec![7]);
    once.on_update(2, 2, c.clone());
    twice.on_update(2, 2, c.clone());
    twice.on_update(2, 2, c.clone());

    let b1 = once.store().best(2).unwrap();
    let b2 = twice.store().best(2).unwrap();
    assert!(b1 == b2);
    // The next tick emits identical traffic.
    let u1 = once.tick();
    let u2 = twice.tick();
    assert_eq!(u1.len(), u2.len());
    for (a, b) in u1.iter().zip(u2.iter()) {
        assert_eq!(a.to, b.to);
        assert_eq!(a.level, b.level);
        assert!(a.contribution == b.contribution);
    }
}

#[test]
fn an_overlapping_weaker_update_is_discarded() {
    let mut node = Aggregation::new(0, 4, config(100, 50)).unwrap();
    node.submit_own(Contribution::individual(4, 0, vec![0])).unwrap();
    let mut bits = BitSet::new(4);
    bits.insert(2);
    bits.insert(3);
    let first = Contribution::new(bits, vec![7]);
    node.on_update(2, 2, first.clone());
    assert!(node.store().best(2).unwrap() == first);

    // A different set from the same peer, overlapping the stored best.
    let mut bits = BitSet::new(4);
    bits.insert(1);
    bits.insert(3);
    node.on_update(2, 2, Contribution::new(bits, vec![9]));
    assert!(node.store().best(2).unwrap() == first);
}

#[test]
fn level_start_timeout_fires_without_completion() {
    // No inbound traffic at all: lower levels stay incomplete, yet level 2
    // starts at its deadline and sends whatever is known.
    let delay = 2;
    let mut node = Aggregation::new(0, 4, config(delay, 100)).unwrap();
    node.submit_own(Contribution::individual(4, 0, vec![0])).unwrap();
    let mut sent_on_level_2 = Vec::new();
    for _ in 0..6 {
        assert!(!node.levels()[2].state.started);
        let updates = node.tick();
        sent_on_level_2.extend(updates.into_iter().filter(|u| u.level == 2));
        if node.ticks() < (2 + 1) * delay {
            assert!(sent_on_level_2.is_empty());
        }
    }
    assert!(node.levels()[2].state.started);
    assert!(!node.levels()[1].state.complete);
    let updates = node.tick();
    let to_level_2: Vec<_> = updates.iter().filter(|u| u.level == 2).collect();
    assert_eq!(to_level_2.len(), 2);
    for u in &to_level_2 {
        assert_eq!(members_of(&u.contribution), vec![0]);
    }
}

#[test]
fn abort_makes_the_protocol_terminal() {
    let mut node = Aggregation::new(0, 4, config(1, 100)).unwrap();
    node.submit_own(Contribution::individual(4, 0, vec![0])).unwrap();
    node.abort();
    assert!(node.is_aborted());
    assert!(node.tick().is_empty());
    // The result is the best known so far: the own singleton.
    assert_eq!(members_of(&node.result().unwrap()), vec![0]);
    // Updates after abort are ignored.
    let mut bits = BitSet::new(4);
    bits.insert(2);
    bits.insert(3);
    node.on_update(2, 2, Contribution::new(bits, vec![7]));
    assert!(node.store().best(2).is_none());
}

#[test]
fn construction_rejects_a_node_outside_the_committee() {
    assert!(matches!(
        Aggregation::new(4, 4, config(1, 10)),
        Err(ConfigurationError::NodeIdOutOfBounds)
    ));
}

#[test]
fn levels_complete_in_order_as_updates_arrive() {
    let cfg = config(100, 50);
    let mut n0 = Aggregation::new(0, 4, cfg).unwrap();
    n0.submit_own(Contribution::individual(4, 0, vec![0])).unwrap();
    assert!(n0.levels()[0].state.complete, "level0 complete");
    let u = n0.tick();
    assert!(n0.levels()[1].state.started, "level1 started");
    assert_eq!(u.len(), 1, "one send in tick1");
    assert_eq!(u[0].to, 1);
    assert_eq!(u[0].level, 1);
    assert_eq!(members_of(&u[0].contribution), vec![0]);
    n0.on_update(1, 1, Contribution::individual(4, 1, vec![1]));
    assert!(n0.store().best(1).is_some(), "best1 set");
    assert!(n0.levels()[1].state.complete, "level1 complete");
    let u = n0.tick();
    assert!(n0.levels()[2].state.started, "level2 started");
    assert_eq!(u.len(), 2, "two sends in tick2");
    let mut bits = BitSet::new(4);
    bits.insert(2);
    bits.insert(3);
    n0.on_update(2, 2, Contribution::new(bits, vec![7]));
    assert!(n0.store().best(2).is_some(), "best2 set");
    assert_eq!(n0.store().best(2).unwrap().num_contributors(), 3, "best2 count");
    assert!(n0.levels()[2].state.complete, "level2 complete");
    assert!(n0.result().is_some(), "result");
}
