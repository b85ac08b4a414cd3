//! Three nodes at positions 10, 50 and 90.

use hash_ring::HashRing;

fn three_nodes() -> HashRing<&'static str, String> {
    let mut ring: HashRing<&'static str, String> = HashRing::default();
    ring.add_node_at(10, "ten");
    ring.add_node_at(50, "fifty");
    ring.add_node_at(90, "ninety");
    ring
}

#[test]
fn key_between_nodes_goes_to_the_next_node() {
    let ring = three_nodes();
    assert_eq!(ring.get_node_at(42), Some(&"fifty"));
}

#[test]
fn key_past_the_last_node_wraps_to_the_first() {
    let ring = three_nodes();
    assert_eq!(ring.get_node_at(95), Some(&"ten"));
}

#[test]
fn removal_hands_keys_to_the_next_node() {
    let mut ring = three_nodes();
    ring.remove_node_at(50);
    assert_eq!(ring.len(), 2);
    assert_eq!(ring.get_node_at(42), Some(&"ninety"));
}

#[test]
fn removal_leaves_other_keys_alone() {
    let mut ring = three_nodes();
    assert_eq!(ring.get_node_at(5), Some(&"ten"));
    ring.remove_node_at(50);
    assert_eq!(ring.get_node_at(5), Some(&"ten"));
}

#[test]
fn every_position_resolves_as_the_arcs_say() {
    let ring = three_nodes();
    let expected: [(u64, &str); 10] = [
        (0, "ten"),
        (9, "ten"),
        (10, "ten"),
        (11, "fifty"),
        (50, "fifty"),
        (51, "ninety"),
        (89, "ninety"),
        (90, "ninety"),
        (91, "ten"),
        (u64::MAX, "ten"),
    ];
    for (position, node) in expected {
        assert_eq!(ring.get_node_at(position), Some(&node));
    }
}

#[test]
fn insertion_claims_the_arc_up_to_the_new_node() {
    let mut ring = three_nodes();
    ring.add_node_at(70, "seventy");
    assert_eq!(ring.len(), 4);
    let expected: [(u64, &str); 8] = [
        (5, "ten"),
        (42, "fifty"),
        (50, "fifty"),
        (51, "seventy"),
        (70, "seventy"),
        (71, "ninety"),
        (90, "ninety"),
        (95, "ten"),
    ];
    for (position, node) in expected {
        assert_eq!(ring.get_node_at(position), Some(&node));
    }
}

#[test]
fn insertion_below_all_nodes_claims_the_wrapped_arc() {
    let mut ring = three_nodes();
    ring.add_node_at(5, "five");
    let expected: [(u64, &str); 6] = [
        (0, "five"),
        (5, "five"),
        (6, "ten"),
        (10, "ten"),
        (90, "ninety"),
        (91, "five"),
    ];
    for (position, node) in expected {
        assert_eq!(ring.get_node_at(position), Some(&node));
    }
}

#[test]
fn removing_the_highest_node_hands_its_keys_to_the_lowest() {
    let mut ring = three_nodes();
    assert_eq!(ring.get_node_at(60), Some(&"ninety"));
    ring.remove_node_at(90);
    assert_eq!(ring.get_node_at(60), Some(&"ten"));
    assert_eq!(ring.get_node_at(42), Some(&"fifty"));
    assert_eq!(ring.get_node_at(5), Some(&"ten"));
}
