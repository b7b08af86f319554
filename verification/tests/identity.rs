use vortex::node_id::NodeIdImp;
use vortex::{Error, NodeId};

fn parse(s: &[u8]) -> Result<NodeId, Error> {
    NodeId::parse(&s.to_vec())
}

#[test]
fn parses_cluster_node() {
    let id = parse(b"n12").unwrap();
    assert_eq!(id.imp, NodeIdImp::Node(12));
    assert_eq!(id.value(), 12);
    assert!(!id.is_seq_kv());
}

#[test]
fn parses_external_client() {
    let id = parse(b"c0").unwrap();
    assert_eq!(id.imp, NodeIdImp::Maelstrom(0));
    assert_eq!(id.value(), 0);
}

#[test]
fn parses_store_literal() {
    let id = parse(b"seq-kv").unwrap();
    assert!(id.is_seq_kv());
    assert_eq!(id, NodeId::seq_kv());
    assert_eq!(id.value(), u32::MAX);
}

#[test]
fn rejects_invalid_identities() {
    assert_eq!(parse(b""), Err(Error::InvalidIdentity));
    assert_eq!(parse(b"n"), Err(Error::InvalidIdentity));
    assert_eq!(parse(b"c"), Err(Error::InvalidIdentity));
    assert_eq!(parse(b"x5"), Err(Error::InvalidIdentity));
    assert_eq!(parse(b"n12a"), Err(Error::InvalidIdentity));
    assert_eq!(parse(b"seq-kv2"), Err(Error::InvalidIdentity));
    assert_eq!(parse(b"seqkv"), Err(Error::InvalidIdentity));
}

#[test]
fn rejects_value_out_of_range() {
    assert_eq!(parse(b"n4294967295").unwrap().imp, NodeIdImp::Node(u32::MAX));
    assert_eq!(parse(b"n4294967296"), Err(Error::InvalidIdentity));
}

#[test]
fn format_round_trips_through_parse() {
    for id in [
        NodeId::node(0),
        NodeId::node(7),
        NodeId::node(4095),
        NodeId::node(u32::MAX),
        NodeId::maelstrom(1),
        NodeId::maelstrom(100000),
        NodeId::seq_kv(),
    ] {
        let text = id.format();
        assert_eq!(NodeId::parse(&text).unwrap(), id);
    }
}

#[test]
fn parse_round_trips_through_format() {
    for text in [&b"n0"[..], b"n12", b"c7", b"c4294967295", b"seq-kv"] {
        let id = parse(text).unwrap();
        assert_eq!(id.format(), text.to_vec());
    }
}

#[test]
fn zero_padded_number_parses_but_reformats_shorter() {
    let id = parse(b"n007").unwrap();
    assert_eq!(id.imp, NodeIdImp::Node(7));
    assert_eq!(id.format(), b"n7".to_vec());
}

#[test]
fn identity_order_ranks_clients_then_nodes_then_store() {
    assert!(NodeId::maelstrom(9).le(NodeId::node(0)));
    assert!(!NodeId::node(0).le(NodeId::maelstrom(9)));
    assert!(NodeId::node(3).le(NodeId::node(4)));
    assert!(!NodeId::node(4).le(NodeId::node(3)));
    assert!(NodeId::node(u32::MAX).le(NodeId::seq_kv()));
    assert!(!NodeId::seq_kv().le(NodeId::node(u32::MAX)));
    assert!(NodeId::seq_kv().le(NodeId::seq_kv()));
}

#[test]
fn formats_expected_text() {
    assert_eq!(NodeId::node(3).format(), b"n3".to_vec());
    assert_eq!(NodeId::maelstrom(41).format(), b"c41".to_vec());
    assert_eq!(NodeId::seq_kv().format(), b"seq-kv".to_vec());
}
