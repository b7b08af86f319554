use vortex::{Message, NodeId, Response};

#[test]
fn response_addresses_the_sender_and_correlates() {
    let msg = Message {
        src: NodeId::maelstrom(3),
        dest: NodeId::node(1),
        msg_id: Some(14),
        in_reply_to: None,
        payload: (),
    };
    let resp = msg.response(99u32);
    assert_eq!(resp.dest, NodeId::maelstrom(3));
    assert_eq!(resp.in_reply_to, Some(14));
    assert_eq!(resp.payload, 99);
}

#[test]
fn basic_response_carries_the_type_tag() {
    let msg = Message {
        src: NodeId::maelstrom(3),
        dest: NodeId::node(1),
        msg_id: Some(2),
        in_reply_to: None,
        payload: (),
    };
    let resp = msg.basic_response("broadcast_ok".to_string());
    assert_eq!(resp.dest, NodeId::maelstrom(3));
    assert_eq!(resp.in_reply_to, Some(2));
    assert_eq!(resp.payload.ty, "broadcast_ok");
}

#[test]
fn with_payload_keeps_destination_and_correlation() {
    let resp = Response { dest: NodeId::node(2), in_reply_to: Some(8), payload: 1u32 };
    let swapped = resp.with_payload("value".to_string());
    assert_eq!(swapped.dest, NodeId::node(2));
    assert_eq!(swapped.in_reply_to, Some(8));
    assert_eq!(swapped.payload, "value");
}

#[test]
fn uncorrelated_message_yields_uncorrelated_response() {
    let msg = Message {
        src: NodeId::node(5),
        dest: NodeId::node(1),
        msg_id: None,
        in_reply_to: None,
        payload: 0u8,
    };
    let resp = msg.response(());
    assert_eq!(resp.in_reply_to, None);
}
