use vortex::broadcast::BroadcastState;
use vortex::NodeId;

fn sorted(mut v: Vec<u32>) -> Vec<u32> {
    v.sort_unstable();
    v
}

#[test]
fn broadcast_then_read_returns_the_set() {
    // scenario: Broadcast(1), Broadcast(2), Read gives {1, 2}
    let mut s = BroadcastState::new();
    s.handle_broadcast(1);
    s.handle_broadcast(2);
    assert_eq!(sorted(s.handle_read()), vec![1, 2]);
}

#[test]
fn rebroadcast_is_idempotent() {
    let mut s = BroadcastState::new();
    s.handle_broadcast(1);
    s.handle_broadcast(1);
    assert_eq!(s.handle_read(), vec![1]);
}

#[test]
fn one_tick_carries_a_value_to_the_neighbor() {
    // scenario: n1 gossips to n2; after one tick n2 reads {1}
    let n1 = NodeId::node(1);
    let n2 = NodeId::node(2);
    let mut a = BroadcastState::new();
    let mut b = BroadcastState::new();
    a.handle_topology(vec![n2]);
    a.handle_broadcast(1);

    let out = a.tick();
    assert_eq!(out.len(), 1);
    assert_eq!(out[0].dest, n2);
    assert_eq!(out[0].values, vec![1]);

    b.handle_gossip(n1, &out[0].values);
    assert_eq!(b.handle_read(), vec![1]);
    // the receiver also records what the sender has seen
    assert_eq!(b.known_values(n1), vec![1]);
}

#[test]
fn unacknowledged_batches_are_resent() {
    // a shipped batch is not assumed delivered: until an acknowledgment
    // arrives, every tick ships the same gap again under a fresh id
    let n2 = NodeId::node(2);
    let mut a = BroadcastState::new();
    a.handle_topology(vec![n2]);
    a.handle_broadcast(1);

    let first = a.tick();
    assert_eq!(first.len(), 1);
    assert_eq!(first[0].values, vec![1]);
    assert!(a.known_values(n2).is_empty());

    let second = a.tick();
    assert_eq!(second.len(), 1);
    assert_eq!(second[0].values, vec![1]);
    assert!(first[0].gossip_id < second[0].gossip_id);
    assert_eq!(a.pending_len(n2), 2);
}

#[test]
fn acknowledged_values_are_not_resent() {
    let n2 = NodeId::node(2);
    let mut a = BroadcastState::new();
    a.handle_topology(vec![n2]);
    a.handle_broadcast(1);

    let out = a.tick();
    a.handle_gossip_response(n2, out[0].gossip_id);
    assert_eq!(a.known_values(n2), vec![1]);
    assert_eq!(a.tick().len(), 0);

    // only the still-unseen values are shipped later
    a.handle_broadcast(2);
    let out = a.tick();
    assert_eq!(out.len(), 1);
    assert_eq!(out[0].values, vec![2]);
}

#[test]
fn values_received_by_gossip_are_not_echoed_back() {
    let n1 = NodeId::node(1);
    let mut b = BroadcastState::new();
    b.handle_topology(vec![n1]);
    b.handle_gossip(n1, &vec![5, 6]);
    b.handle_broadcast(7);
    let out = b.tick();
    assert_eq!(out.len(), 1);
    assert_eq!(out[0].values, vec![7]);
}

#[test]
fn tick_fans_out_to_every_neighbor() {
    let n2 = NodeId::node(2);
    let n3 = NodeId::node(3);
    let mut a = BroadcastState::new();
    a.handle_topology(vec![n2, n3]);
    a.handle_broadcast(4);
    let out = a.tick();
    assert_eq!(out.len(), 2);
    assert_eq!(out[0].dest, n2);
    assert_eq!(out[1].dest, n3);
    assert_eq!(out[0].values, vec![4]);
    assert_eq!(out[1].values, vec![4]);
    assert_ne!(out[0].gossip_id, out[1].gossip_id);
}

#[test]
fn duplicate_neighbor_entries_get_one_batch_per_tick() {
    let n2 = NodeId::node(2);
    let mut a = BroadcastState::new();
    a.handle_topology(vec![n2, n2]);
    a.handle_broadcast(9);
    let out = a.tick();
    assert_eq!(out.len(), 1);
    assert_eq!(out[0].dest, n2);
}

#[test]
fn acknowledgments_discard_pending_batches_cumulatively() {
    let n2 = NodeId::node(2);
    let mut a = BroadcastState::new();
    a.handle_topology(vec![n2]);
    a.handle_broadcast(1);
    let first = a.tick();
    a.handle_broadcast(2);
    let second = a.tick();
    // nothing is acknowledged yet, so the second batch re-ships 1 too
    assert_eq!(sorted(second[0].values.clone()), vec![1, 2]);
    assert_eq!(a.pending_len(n2), 2);
    assert!(first[0].gossip_id < second[0].gossip_id);

    // acknowledging the later batch discards the earlier one too
    a.handle_gossip_response(n2, second[0].gossip_id);
    assert_eq!(a.pending_len(n2), 0);
    assert_eq!(sorted(a.known_values(n2)), vec![1, 2]);
    assert_eq!(a.tick().len(), 0);
}

#[test]
fn acknowledging_only_the_earlier_batch_keeps_the_later() {
    let n2 = NodeId::node(2);
    let mut a = BroadcastState::new();
    a.handle_topology(vec![n2]);
    a.handle_broadcast(1);
    let first = a.tick();
    a.handle_broadcast(2);
    let second = a.tick();

    a.handle_gossip_response(n2, first[0].gossip_id);
    assert_eq!(a.pending_len(n2), 1);
    assert_eq!(a.known_values(n2), vec![1]);
    a.handle_gossip_response(n2, second[0].gossip_id);
    assert_eq!(a.pending_len(n2), 0);
    assert_eq!(sorted(a.known_values(n2)), vec![1, 2]);
}

#[test]
fn stale_acknowledgments_are_dropped_silently() {
    let n2 = NodeId::node(2);
    let n9 = NodeId::node(9);
    let mut a = BroadcastState::new();
    a.handle_topology(vec![n2]);
    a.handle_broadcast(1);
    let out = a.tick();
    // an untracked peer, then a duplicate of a real acknowledgment
    a.handle_gossip_response(n9, 1);
    a.handle_gossip_response(n2, out[0].gossip_id);
    let known = a.known_values(n2);
    a.handle_gossip_response(n2, out[0].gossip_id);
    assert_eq!(a.known_values(n2), known);
    assert_eq!(a.pending_len(n2), 0);
    assert_eq!(a.handle_read(), vec![1]);
}

#[test]
fn gossip_exchange_converges_both_ways() {
    // one round of anti-entropy in each direction equalizes two nodes
    let n1 = NodeId::node(1);
    let n2 = NodeId::node(2);
    let mut a = BroadcastState::new();
    let mut b = BroadcastState::new();
    a.handle_topology(vec![n2]);
    b.handle_topology(vec![n1]);
    a.handle_broadcast(1);
    b.handle_broadcast(2);

    let from_a = a.tick();
    b.handle_gossip(n1, &from_a[0].values);
    let from_b = b.tick();
    a.handle_gossip(n2, &from_b[0].values);

    assert_eq!(sorted(a.handle_read()), vec![1, 2]);
    assert_eq!(sorted(b.handle_read()), vec![1, 2]);
}

#[test]
fn values_propagate_along_a_delivery_chain() {
    // a line n1 -> n2 -> n3: two tick-and-deliver rounds carry a value
    // injected at n1 all the way to n3
    let n1 = NodeId::node(1);
    let n2 = NodeId::node(2);
    let n3 = NodeId::node(3);
    let mut a = BroadcastState::new();
    let mut b = BroadcastState::new();
    let mut c = BroadcastState::new();
    a.handle_topology(vec![n2]);
    b.handle_topology(vec![n3]);
    a.handle_broadcast(11);

    let from_a = a.tick();
    b.handle_gossip(n1, &from_a[0].values);
    let from_b = b.tick();
    c.handle_gossip(n2, &from_b[0].values);

    assert_eq!(c.handle_read(), vec![11]);
}

#[test]
fn ring_neighbors_follow_the_sorted_peer_list_and_wrap() {
    let ids: Vec<NodeId> = (1..=5).map(NodeId::node).collect();
    let r = BroadcastState::ring_neighbors(&ids, NodeId::node(1), 4);
    assert_eq!(r, vec![NodeId::node(2), NodeId::node(3), NodeId::node(4), NodeId::node(5)]);
    let r = BroadcastState::ring_neighbors(&ids, NodeId::node(4), 4);
    assert_eq!(r, vec![NodeId::node(5), NodeId::node(1), NodeId::node(2), NodeId::node(3)]);
    let two: Vec<NodeId> = vec![NodeId::node(1), NodeId::node(2)];
    let r = BroadcastState::ring_neighbors(&two, NodeId::node(1), 3);
    assert_eq!(r, vec![NodeId::node(2), NodeId::node(1), NodeId::node(2)]);
}

#[test]
fn ring_neighbors_sort_the_peer_list_first() {
    // the successors are taken in the sorted list, not in arrival order
    let ids: Vec<NodeId> = vec![NodeId::node(2), NodeId::node(1), NodeId::node(3)];
    let r = BroadcastState::ring_neighbors(&ids, NodeId::node(1), 2);
    assert_eq!(r, vec![NodeId::node(2), NodeId::node(3)]);
    let r = BroadcastState::ring_neighbors(&ids, NodeId::node(3), 2);
    assert_eq!(r, vec![NodeId::node(1), NodeId::node(2)]);
}
