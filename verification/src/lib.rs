//! A verified core for a message-passing cluster node: node identities and
//! their textual wire form, message shells, outbound-id correlation state, a
//! gossip-based broadcast engine, and a compare-and-swap counter engine.

use vstd::prelude::*;

pub mod broadcast;
pub mod client;
pub mod counter;
pub mod dec;
pub mod kv;
pub mod node_id;

pub use client::MaelstromClient;
pub use node_id::NodeId;

verus! {

/// Errors the node logic reports to its caller.
#[derive(Clone, Copy, Debug, PartialEq, Eq, Structural)]
pub enum Error {
    /// A textual identity was neither `seq-kv` nor `n<uint>` / `c<uint>`.
    InvalidIdentity,
    /// A line did not decode to the requested payload shape.
    MalformedMessage,
    /// The input stream ended before the handshake message arrived.
    MissingInitMessage,
    /// A receive was attempted on a write-only (detached) handle.
    DetachedCannotReceive,
    /// A store conflict reply matched neither known textual pattern.
    UnparseableConflict,
}

/// One decoded inbound unit: who sent it, to whom, its correlation ids, and
/// the type-specific payload.
pub struct Message<Payload> {
    pub src: NodeId,
    pub dest: NodeId,
    pub msg_id: Option<u32>,
    pub in_reply_to: Option<u32>,
    pub payload: Payload,
}

/// The payload of a reply that carries nothing but its type tag.
pub struct BasicResponsePayload {
    pub ty: String,
}

/// One outbound unit: the runtime fills in the source and, for correlated
/// sends, a fresh message id at send time.
pub struct Response<Payload> {
    pub dest: NodeId,
    pub in_reply_to: Option<u32>,
    pub payload: Payload,
}

impl<T> Message<T> {
    /// A reply addressed to this message's sender, correlated to its id.
    pub fn response<U>(&self, payload: U) -> (r: Response<U>)
        ensures
            r.dest == self.src,
            r.in_reply_to == self.msg_id,
            r.payload == payload,
    {
        Response { dest: self.src, in_reply_to: self.msg_id, payload }
    }

    /// A reply to this message that carries only the type tag `ty`.
    pub fn basic_response(&self, ty: String) -> (r: Response<BasicResponsePayload>)
        ensures
            r.dest == self.src,
            r.in_reply_to == self.msg_id,
            r.payload.ty == ty,
    {
        self.response(BasicResponsePayload { ty })
    }
}

impl<Payload> Response<Payload> {
    /// The same destination and correlation with another payload.
    pub fn with_payload<U>(self, payload: U) -> (r: Response<U>)
        ensures
            r.dest == self.dest,
            r.in_reply_to == self.in_reply_to,
            r.payload == payload,
    {
        Response { dest: self.dest, in_reply_to: self.in_reply_to, payload }
    }
}

} // verus!
