use handel::Level;
use rand::{thread_rng, Rng};

#[test]
fn it_can_handle_empty_level() {
    let mut rng = thread_rng();
    let id: usize = rng.gen_range(0..10);
    let mut level = Level::new(id, [].to_vec());

    // Check that the level is actually empty
    assert!(level.is_empty());
    assert_eq!(level.num_peers(), 0);

    // Start the level
    level.start();
    assert!(level.state.started);

    // Check that it can properly select next peers (return empty vector)
    assert!(level.select_next_peers(rng.gen_range(0..512)).is_empty());
}

#[test]
fn it_can_handle_non_empty_level() {
    let mut rng = thread_rng();
    let id: usize = rng.gen_range(0..10);
    let num_ids = rng.gen_range(1..512);
    let mut ids: Vec<usize> = (0..num_ids).map(|_| rng.gen_range(0..=10)).collect();
    let mut level = Level::new(id, ids.clone());

    // Check that the level is not empty
    assert!(!level.is_empty());
    assert_eq!(level.num_peers(), num_ids);

    // Start the level
    level.start();

    // Check that it can properly select next peers (return empty vector)
    let select_size = rng.gen_range(0..num_ids) + 1;
    let iterations = num_ids / select_size;
    if id != 0 {
        for _ in 0..iterations {
            let exp_next_peers: Vec<usize> = ids.drain(0..select_size).collect();
            let next_peers = level.select_next_peers(select_size);
            assert_eq!(next_peers, exp_next_peers);
        }
    } else {
        // For level 0 the next peers is always empty since it should be our own ID
        assert!(level.select_next_peers(select_size).is_empty());
    }
}

#[test]
fn start_reports_the_transition_once() {
    let mut level = Level::new(3, vec![4, 5]);
    assert!(!level.is_started());
    assert!(level.start());
    assert!(level.is_started());
    assert!(!level.start());
}

#[test]
fn select_wraps_around() {
    let mut level = Level::new(2, vec![10, 11, 12]);
    assert_eq!(level.select_next_peers(2), vec![10, 11]);
    assert_eq!(level.select_next_peers(2), vec![12, 10]);
    assert_eq!(level.select_next_peers(5), vec![11, 12, 10]);
}
