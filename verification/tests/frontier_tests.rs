use cr_data_collector::frontier::Frontier;
use std::sync::{Arc, Mutex};

fn ids(items: &[&str]) -> Vec<String> {
    items.iter().map(|s| s.to_string()).collect()
}

#[test]
fn new_frontier_is_empty() {
    let frontier = Frontier::new();
    assert!(frontier.is_empty());
    assert_eq!(frontier.pending_len(), 0);
    assert_eq!(frontier.visited_len(), 0);
}

#[test]
fn seed_bypasses_the_checks() {
    let mut frontier = Frontier::new();
    frontier.mark_visited("#AAA".to_string());
    frontier.seed(ids(&["#AAA", "#BBB", "#BBB"]));
    assert_eq!(frontier.pending_len(), 3);
    assert_eq!(frontier.drain_batch(10), ids(&["#AAA", "#BBB", "#BBB"]));
}

#[test]
fn drain_is_first_in_first_out() {
    let mut frontier = Frontier::new();
    frontier.seed(ids(&["#A", "#B", "#C", "#D", "#E"]));
    assert_eq!(frontier.drain_batch(2), ids(&["#A", "#B"]));
    assert_eq!(frontier.pending_len(), 3);
    assert_eq!(frontier.drain_batch(0), Vec::<String>::new());
    assert_eq!(frontier.pending_len(), 3);
    assert_eq!(frontier.drain_batch(10), ids(&["#C", "#D", "#E"]));
    assert!(frontier.is_empty());
    assert_eq!(frontier.drain_batch(10), Vec::<String>::new());
}

#[test]
fn enqueue_twice_gives_one_pending_entry() {
    let mut frontier = Frontier::new();
    assert!(frontier.enqueue_if_new("#CCC".to_string()));
    assert!(!frontier.enqueue_if_new("#CCC".to_string()));
    assert_eq!(frontier.pending_len(), 1);
    assert!(frontier.is_pending("#CCC"));
    assert_eq!(frontier.drain_batch(10), ids(&["#CCC"]));
}

#[test]
fn enqueue_of_visited_is_a_no_op() {
    let mut frontier = Frontier::new();
    frontier.seed(ids(&["#X"]));
    frontier.mark_visited("#AAA".to_string());
    assert!(!frontier.enqueue_if_new("#AAA".to_string()));
    assert_eq!(frontier.pending_len(), 1);
    assert!(!frontier.is_pending("#AAA"));
    assert!(frontier.is_visited("#AAA"));
}

#[test]
fn enqueue_does_not_see_identifiers_in_flight() {
    let mut frontier = Frontier::new();
    frontier.seed(ids(&["#AAA"]));
    assert_eq!(frontier.drain_batch(1), ids(&["#AAA"]));
    assert!(frontier.enqueue_if_new("#AAA".to_string()));
    assert_eq!(frontier.pending_len(), 1);
}

#[test]
fn mark_visited_leaves_the_queue() {
    let mut frontier = Frontier::new();
    frontier.seed(ids(&["#A", "#B"]));
    frontier.mark_visited("#A".to_string());
    frontier.mark_visited("#A".to_string());
    assert_eq!(frontier.visited_len(), 1);
    assert_eq!(frontier.pending_len(), 2);
    assert!(frontier.is_visited("#A"));
    assert!(!frontier.is_visited("#B"));
    assert!(!frontier.is_empty());
}

#[test]
fn identifiers_are_compared_exactly() {
    let mut frontier = Frontier::new();
    assert!(frontier.enqueue_if_new("#abc".to_string()));
    assert!(frontier.enqueue_if_new("#ABC".to_string()));
    assert!(frontier.enqueue_if_new("abc".to_string()));
    assert_eq!(frontier.pending_len(), 3);
}

fn offer(shared: &Arc<Mutex<Frontier>>, identifier: &str) -> bool {
    shared.lock().unwrap().enqueue_if_new(identifier.to_string())
}

#[test]
fn two_holders_of_the_lock_give_one_pending_entry() {
    // Each offer runs under the lock, so two tasks can only run one after
    // the other: either order is tried.
    for first in [0usize, 1] {
        let shared = Arc::new(Mutex::new(Frontier::new()));
        let tasks = [Arc::clone(&shared), Arc::clone(&shared)];
        let added_first = offer(&tasks[first], "#CCC");
        let added_second = offer(&tasks[1 - first], "#CCC");
        assert!(added_first);
        assert!(!added_second);
        let mut frontier = shared.lock().unwrap();
        assert_eq!(frontier.pending_len(), 1);
        assert_eq!(frontier.drain_batch(10), ids(&["#CCC"]));
    }
}
