use vortex::counter::{CasRequest, CounterState, ReadReply};
use vortex::NodeId;

#[test]
fn add_issues_cas_from_current_estimate() {
    let mut c = CounterState::new();
    let req = c.handle_add(5, 1);
    assert_eq!(req, CasRequest { from: 0, to: 5 });
    assert_eq!(c.estimate, 0);

    assert!(c.handle_cas_ok(1));
    assert_eq!(c.estimate, 5);

    let req = c.handle_add(2, 2);
    assert_eq!(req, CasRequest { from: 5, to: 7 });
}

#[test]
fn conflict_retries_once_from_reported_value() {
    // the retry law: estimate 0, Add(5) issues cas(0, 5); a conflict
    // reporting 7 issues exactly one cas(7, 12) and discards the rest
    let mut c = CounterState::new();
    let req = c.handle_add(5, 1);
    assert_eq!(req, CasRequest { from: 0, to: 5 });
    let req = c.handle_add(3, 2);
    assert_eq!(req, CasRequest { from: 0, to: 3 });

    let retry = c.handle_cas_conflict(1, 7, 3);
    assert_eq!(retry, Some(CasRequest { from: 7, to: 12 }));
    assert_eq!(c.inflight_cas.len(), 1);
    assert_eq!(c.inflight_cas[0].msg_id, 3);
    assert_eq!(c.inflight_cas[0].delta, 5);

    // the discarded attempt is never answered again
    assert!(!c.handle_cas_ok(2));
    assert_eq!(c.estimate, 0);
}

#[test]
fn duplicate_cas_ok_changes_nothing_the_second_time() {
    let mut c = CounterState::new();
    c.handle_add(5, 1);
    assert!(c.handle_cas_ok(1));
    assert_eq!(c.estimate, 5);
    assert!(!c.handle_cas_ok(1));
    assert_eq!(c.estimate, 5);
    assert_eq!(c.inflight_cas.len(), 0);
}

#[test]
fn duplicate_read_ok_changes_nothing_the_second_time() {
    let mut c = CounterState::new();
    c.handle_read(1, NodeId::maelstrom(3), Some(9));
    let reply = c.handle_read_ok(1, 42);
    assert_eq!(
        reply,
        Some(ReadReply { dest: NodeId::maelstrom(3), in_reply_to: Some(9), value: 42 })
    );
    assert_eq!(c.estimate, 42);
    assert_eq!(c.handle_read_ok(1, 17), None);
    assert_eq!(c.estimate, 42);
}

#[test]
fn stale_replies_are_discarded() {
    let mut c = CounterState::new();
    assert!(!c.handle_cas_ok(99));
    assert_eq!(c.handle_read_ok(99, 1), None);
    assert_eq!(c.handle_key_missing(99), None);
    assert_eq!(c.handle_cas_conflict(99, 1, 100), None);
    assert_eq!(c.estimate, 0);
}

#[test]
fn missing_key_answers_zero_and_later_commit_advances() {
    // Add(3), then the store reports a missing key for a read: the caller
    // hears 0; the later cas_ok for the delta-3 attempt advances to 3
    let mut c = CounterState::new();
    let req = c.handle_add(3, 1);
    assert_eq!(req, CasRequest { from: 0, to: 3 });
    c.handle_read(2, NodeId::maelstrom(8), Some(11));
    let reply = c.handle_key_missing(2);
    assert_eq!(
        reply,
        Some(ReadReply { dest: NodeId::maelstrom(8), in_reply_to: Some(11), value: 0 })
    );
    assert_eq!(c.estimate, 0);
    assert!(c.handle_cas_ok(1));
    assert_eq!(c.estimate, 3);
}

#[test]
fn reads_match_by_correlation_id() {
    let mut c = CounterState::new();
    c.handle_read(1, NodeId::maelstrom(1), Some(5));
    c.handle_read(3, NodeId::maelstrom(2), Some(6));
    c.handle_read(7, NodeId::maelstrom(3), None);
    let reply = c.handle_read_ok(3, 10).unwrap();
    assert_eq!(reply.dest, NodeId::maelstrom(2));
    assert_eq!(reply.in_reply_to, Some(6));
    assert_eq!(c.pending_reads.len(), 2);
    assert_eq!(c.handle_read_ok(2, 10), None);
}
