use handel::{
    BinomialPartitioner, BitSet, Contribution, ContributionError, Store, StoreError,
};

fn store_for(node_id: usize, size: usize) -> Store {
    let p = BinomialPartitioner::new(node_id, size).unwrap();
    Store::new(&p).unwrap()
}

fn combined_of(n: usize, members: &[usize]) -> Contribution {
    let mut bits = BitSet::new(n);
    for &m in members {
        bits.insert(m);
    }
    Contribution::new(bits, vec![0xaa])
}

#[test]
fn combine_requires_disjoint_sets() {
    // Merging is allowed exactly when the contributor sets are disjoint.
    let mut a = combined_of(4, &[0, 1]);
    let b = combined_of(4, &[2]);
    assert_eq!(a.combine(&b), Ok(()));
    let merged = a.contributors();
    assert!(merged.contains(0) && merged.contains(1) && merged.contains(2));
    assert!(!merged.contains(3));
    assert_eq!(a.signature(), &vec![0xaa, 0xaa]);

    let overlapping = combined_of(4, &[1, 3]);
    assert_eq!(a.combine(&overlapping), Err(ContributionError::Overlap));
    // The failed merge left the contribution unchanged.
    assert_eq!(a.num_contributors(), 3);

    let wrong_width = combined_of(8, &[7]);
    assert_eq!(a.combine(&wrong_width), Err(ContributionError::WidthMismatch));
}

#[test]
fn individuals_must_match_their_sender() {
    let mut store = store_for(0, 4);
    // Contributor set differs from the claimed sender.
    let c = Contribution::individual(4, 3, vec![3]);
    assert_eq!(store.put_individual(2, 2, c), Err(StoreError::MalformedIndividual));
    // The sender is not on the level: 1 lives on level 1, not level 2.
    let c = Contribution::individual(4, 1, vec![1]);
    assert_eq!(store.put_individual(2, 1, c), Err(StoreError::MalformedIndividual));
    // Level 0 and out-of-range levels cannot receive.
    let c = Contribution::individual(4, 2, vec![2]);
    assert_eq!(store.put_individual(0, 2, c), Err(StoreError::InvalidLevel));
    let c = Contribution::individual(4, 2, vec![2]);
    assert_eq!(store.put_individual(9, 2, c), Err(StoreError::InvalidLevel));
    // A well-formed individual is accepted.
    let c = Contribution::individual(4, 2, vec![2]);
    assert_eq!(store.put_individual(2, 2, c), Ok(()));
}

#[test]
fn put_combined_validates_sender_and_admissibility() {
    let mut store = store_for(0, 4);
    let c = combined_of(4, &[2, 3]);
    assert_eq!(store.put_combined(5, 2, c), Err(StoreError::InvalidLevel));
    let c = combined_of(4, &[2, 3]);
    assert_eq!(store.put_combined(2, 1, c), Err(StoreError::UnknownPeer));
    // Level 2 admits only contributors 1, 2 and 3; bit 0 is the node itself.
    let c = combined_of(4, &[0, 2]);
    assert_eq!(store.put_combined(2, 2, c), Err(StoreError::NotAdmissible));
    let c = combined_of(4, &[2, 3]);
    assert_eq!(store.put_combined(2, 2, c), Ok(()));
    assert_eq!(store.best(2).unwrap().num_contributors(), 2);
}

#[test]
fn best_grows_monotonically_and_merges_disjoint_parts() {
    let mut store = store_for(0, 4);
    // Level 1 first: its peer is committee member 1.
    let c1 = Contribution::individual(4, 1, vec![1]);
    assert_eq!(store.put_combined(1, 1, c1), Ok(()));
    assert_eq!(store.best(1).unwrap().num_contributors(), 1);
    assert!(store.is_complete(1));

    // A singleton from 3 at level 2.
    let c3 = Contribution::individual(4, 3, vec![3]);
    store.put_individual(2, 3, c3.clone()).unwrap();
    assert_eq!(store.put_combined(2, 3, c3), Ok(()));
    // The candidate was extended by the lower level's best: {1, 3}.
    let best = store.best(2).unwrap();
    assert_eq!(best.num_contributors(), 2);
    assert!(best.contributors().contains(1));
    assert!(best.contributors().contains(3));
    assert!(!store.is_complete(2));

    // The combined contribution from 2 completes the level: {1, 2, 3}.
    let c23 = combined_of(4, &[2, 3]);
    assert_eq!(store.put_combined(2, 2, c23), Ok(()));
    assert_eq!(store.best(2).unwrap().num_contributors(), 3);
    assert!(store.is_complete(2));

    // A complete level's best is immutable: nothing scores higher.
    let again = combined_of(4, &[2]);
    assert_eq!(store.put_combined(2, 2, again), Ok(()));
    assert_eq!(store.best(2).unwrap().num_contributors(), 3);
}

#[test]
fn own_contribution_must_be_the_node_singleton() {
    let mut store = store_for(1, 4);
    let wrong = Contribution::individual(4, 0, vec![0]);
    assert_eq!(store.set_own(wrong), Err(StoreError::MalformedIndividual));
    let own = Contribution::individual(4, 1, vec![1]);
    assert_eq!(store.set_own(own), Ok(()));
    assert!(store.is_complete(0));
    // The first submission is kept.
    let own2 = Contribution::individual(4, 1, vec![9]);
    assert_eq!(store.set_own(own2), Ok(()));
    assert_eq!(store.own().as_ref().unwrap().signature(), &vec![1]);
}

#[test]
fn combined_merges_own_and_level_bests() {
    let mut store = store_for(0, 4);
    assert!(store.combined(2).is_none());
    store.set_own(Contribution::individual(4, 0, vec![0])).unwrap();
    store.put_combined(1, 1, Contribution::individual(4, 1, vec![1])).unwrap();
    store.put_combined(2, 2, combined_of(4, &[2, 3])).unwrap();
    let full = store.combined(2).unwrap();
    assert_eq!(full.num_contributors(), 4);
    for i in 0..4 {
        assert!(full.contributors().contains(i));
    }
}
