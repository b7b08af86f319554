//! Correlation state of the line-oriented runtime: this node's identity, the
//! peer list from the handshake, and the strictly increasing outbound
//! message-id counter. A detached handle shares the identity but owns no
//! counter and may not receive.

use vstd::prelude::*;

use crate::node_id::{NodeId, NodeIdImp};
use crate::Error;

verus! {

/// The state an addressable conversation endpoint keeps between sends: who
/// this node is, who its peers are, and the next outbound message id
/// (`None` on a write-only detached handle).
pub struct MaelstromClient {
    pub node_id: NodeId,
    pub node_ids: Vec<NodeId>,
    pub msg_id: Option<u32>,
}

impl MaelstromClient {
    /// A fresh endpoint before the handshake: a placeholder identity, no
    /// peers, and ids starting at zero.
    pub fn new() -> (r: Self)
        ensures
            r.node_id.imp == NodeIdImp::SeqKv,
            r.node_ids@ =~= Seq::<NodeId>::empty(),
            r.msg_id == Some(0u32),
    {
        MaelstromClient { node_id: NodeId::seq_kv(), node_ids: Vec::new(), msg_id: Some(0u32) }
    }

    /// Adopts the identity and peer list the handshake message declared.
    pub fn handle_init(&mut self, node_id: NodeId, node_ids: Vec<NodeId>)
        ensures
            final(self).node_id == node_id,
            final(self).node_ids@ == node_ids@,
            final(self).msg_id == old(self).msg_id,
    {
        self.node_id = node_id;
        self.node_ids = node_ids;
    }

    /// This node's own identity.
    pub fn node_id(&self) -> (r: NodeId)
        ensures
            r == self.node_id,
    {
        self.node_id
    }

    /// The full peer list of the cluster, as the handshake declared it.
    pub fn node_ids(&self) -> (r: &Vec<NodeId>)
        ensures
            r@ == self.node_ids@,
    {
        &self.node_ids
    }

    /// The id the next correlated send would use; `None` when detached.
    pub fn message_id(&self) -> (r: Option<u32>)
        ensures
            r == self.msg_id,
    {
        self.msg_id
    }

    /// A write-only handle over the same identity and peers: it owns no id
    /// counter, so it can only issue uncorrelated sends, and cannot receive.
    pub fn detach(&self) -> (r: MaelstromClient)
        ensures
            r.node_id == self.node_id,
            r.node_ids@ == self.node_ids@,
            r.msg_id is None,
    {
        let mut ids: Vec<NodeId> = Vec::new();
        let mut i: usize = 0;
        while i < self.node_ids.len()
            invariant
                i <= self.node_ids@.len(),
                ids@ =~= self.node_ids@.take(i as int),
            decreases self.node_ids@.len() - i,
        {
            let id = self.node_ids[i];
            ids.push(id);
            proof {
                assert(self.node_ids@.take(i + 1) =~= self.node_ids@.take(i as int).push(
                    self.node_ids@[i as int],
                ));
            }
            i = i + 1;
        }
        proof {
            assert(self.node_ids@.take(self.node_ids@.len() as int) =~= self.node_ids@);
        }
        MaelstromClient { node_id: self.node_id, node_ids: ids, msg_id: None }
    }

    /// Receiving is allowed exactly on a handle that owns the id counter.
    pub fn check_can_receive(&self) -> (r: Result<(), Error>)
        ensures
            r is Ok <==> self.msg_id is Some,
            r is Err ==> r == Err::<(), Error>(Error::DetachedCannotReceive),
    {
        if self.msg_id.is_some() {
            Ok(())
        } else {
            Err(Error::DetachedCannotReceive)
        }
    }

    /// Consumes one outbound id for a send: an attached handle always
    /// advances its counter, and hands the consumed id out exactly when the
    /// send asks for a reply; a detached handle hands out nothing.
    pub fn allocate_message_id(&mut self, needs_response: bool) -> (r: Option<u32>)
        requires
            old(self).msg_id matches Some(id) ==> id < u32::MAX,
        ensures
            final(self).node_id == old(self).node_id,
            final(self).node_ids@ == old(self).node_ids@,
            match old(self).msg_id {
                Some(id) => {
                    &&& final(self).msg_id == Some((id + 1) as u32)
                    &&& r == if needs_response {
                        Some(id)
                    } else {
                        None::<u32>
                    }
                },
                None => {
                    &&& final(self).msg_id is None
                    &&& r is None
                },
            },
    {
        match self.msg_id {
            Some(id) => {
                self.msg_id = Some(id + 1);
                if needs_response {
                    Some(id)
                } else {
                    None
                }
            },
            None => None,
        }
    }
}

} // verus!
