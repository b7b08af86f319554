use vortex::{Error, MaelstromClient, NodeId};

#[test]
fn handshake_adopts_identity_and_peers() {
    let mut client = MaelstromClient::new();
    assert_eq!(client.message_id(), Some(0));
    client.handle_init(NodeId::node(1), vec![NodeId::node(1), NodeId::node(2)]);
    assert_eq!(client.node_id(), NodeId::node(1));
    assert_eq!(client.node_ids(), &vec![NodeId::node(1), NodeId::node(2)]);
    assert_eq!(client.message_id(), Some(0));
}

#[test]
fn ids_increase_and_are_returned_only_for_correlated_sends() {
    let mut client = MaelstromClient::new();
    assert_eq!(client.allocate_message_id(true), Some(0));
    assert_eq!(client.allocate_message_id(true), Some(1));
    // an uncorrelated send still consumes an id but hands none out
    assert_eq!(client.allocate_message_id(false), None);
    assert_eq!(client.allocate_message_id(true), Some(3));
}

#[test]
fn detached_handle_shares_identity_but_owns_no_counter() {
    let mut client = MaelstromClient::new();
    client.handle_init(NodeId::node(4), vec![NodeId::node(4), NodeId::node(5)]);
    let mut handle = client.detach();
    assert_eq!(handle.node_id(), NodeId::node(4));
    assert_eq!(handle.node_ids(), client.node_ids());
    assert_eq!(handle.message_id(), None);
    assert_eq!(handle.allocate_message_id(true), None);
    assert_eq!(handle.allocate_message_id(false), None);
    assert_eq!(handle.check_can_receive(), Err(Error::DetachedCannotReceive));
    assert_eq!(client.check_can_receive(), Ok(()));
}
