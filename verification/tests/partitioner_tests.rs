use handel::{BinomialPartitioner, ConfigurationError, Level, PartitioningError};

#[test]
fn seven_nodes_levels_for_node_zero() {
    let p = BinomialPartitioner::new(0, 7).unwrap();
    assert_eq!(p.levels(), 4);
    assert_eq!(p.range(0), Ok((0, 0)));
    assert_eq!(p.range(1), Ok((1, 1)));
    assert_eq!(p.range(2), Ok((2, 3)));
    assert_eq!(p.range(3), Ok((4, 6)));
}

#[test]
fn four_nodes_levels_for_node_two() {
    let p = BinomialPartitioner::new(2, 4).unwrap();
    assert_eq!(p.levels(), 3);
    assert_eq!(p.range(0), Ok((2, 2)));
    assert_eq!(p.range(1), Ok((3, 3)));
    assert_eq!(p.range(2), Ok((0, 1)));
}

#[test]
fn empty_level_at_the_clipped_edge() {
    // Node 4 of 5 has no sibling at depth one: indices 5..=5 lie beyond the
    // committee.
    let p = BinomialPartitioner::new(4, 5).unwrap();
    assert_eq!(p.range(1), Err(PartitioningError::EmptyLevel { level: 1 }));
    assert_eq!(p.range(3), Ok((0, 3)));
}

#[test]
fn level_beyond_the_top_is_invalid() {
    let p = BinomialPartitioner::new(0, 4).unwrap();
    assert_eq!(p.range(3), Err(PartitioningError::InvalidLevel { level: 3 }));
}

#[test]
fn node_outside_the_committee_is_rejected() {
    assert!(matches!(
        BinomialPartitioner::new(4, 4),
        Err(ConfigurationError::NodeIdOutOfBounds)
    ));
}

#[test]
fn single_node_committee_has_one_level() {
    let p = BinomialPartitioner::new(0, 1).unwrap();
    assert_eq!(p.levels(), 1);
    assert_eq!(p.range(0), Ok((0, 0)));
}

#[test]
fn create_levels_matches_the_ranges() {
    let p = BinomialPartitioner::new(0, 7).unwrap();
    let levels = Level::create_levels(&p).unwrap();
    assert_eq!(levels.len(), 4);
    assert_eq!(levels[0].peer_ids, vec![0]);
    assert_eq!(levels[1].peer_ids, vec![1]);
    assert_eq!(levels[2].peer_ids, vec![2, 3]);
    assert_eq!(levels[3].peer_ids, vec![4, 5, 6]);
    assert!(levels[0].state.started);
    assert!(!levels[1].state.started);
    assert!(!levels[0].state.complete);
}

#[test]
fn create_levels_handles_empty_levels() {
    let p = BinomialPartitioner::new(4, 5).unwrap();
    let levels = Level::create_levels(&p).unwrap();
    assert_eq!(levels.len(), 4);
    assert_eq!(levels[0].peer_ids, vec![4]);
    assert!(levels[1].peer_ids.is_empty());
    assert!(levels[2].peer_ids.is_empty());
    assert_eq!(levels[3].peer_ids, vec![0, 1, 2, 3]);
}
