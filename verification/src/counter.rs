//! The counter reconciliation engine: a local estimate of a value held by
//! the external linearizable store, committed through compare-and-swap
//! attempts and corrected through the store's replies. Pending requests are
//! kept in queues ordered by message id, so a reply is matched in
//! logarithmic time and a stale reply matches nothing.

use vstd::prelude::*;

use crate::node_id::NodeId;

verus! {

/// One compare-and-swap attempt in flight: the correlation id of the
/// request and the increment it is trying to commit.
#[derive(Clone, Copy, Debug, PartialEq, Eq, Structural)]
pub struct CasEntry {
    pub msg_id: u32,
    pub delta: u32,
}

/// One read of the store in flight: the correlation id of the request and
/// the requester the eventual answer is owed to.
#[derive(Clone, Copy, Debug, PartialEq, Eq, Structural)]
pub struct ReadEntry {
    pub msg_id: u32,
    pub requester: NodeId,
    pub requester_msg_id: Option<u32>,
}

/// A compare-and-swap request to issue against the store's counter key.
#[derive(Clone, Copy, Debug, PartialEq, Eq, Structural)]
pub struct CasRequest {
    pub from: u32,
    pub to: u32,
}

/// An answer owed to the requester of a read.
#[derive(Clone, Copy, Debug, PartialEq, Eq, Structural)]
pub struct ReadReply {
    pub dest: NodeId,
    pub in_reply_to: Option<u32>,
    pub value: u32,
}

/// Are the compare-and-swap entries strictly ordered by message id?
pub open spec fn cas_sorted(s: Seq<CasEntry>) -> bool {
    forall|i: int, j: int| 0 <= i < j < s.len() ==> s[i].msg_id < s[j].msg_id
}

/// Are the read entries strictly ordered by message id?
pub open spec fn reads_sorted(s: Seq<ReadEntry>) -> bool {
    forall|i: int, j: int| 0 <= i < j < s.len() ==> s[i].msg_id < s[j].msg_id
}

/// Does some compare-and-swap entry carry this message id?
pub open spec fn contains_cas_id(s: Seq<CasEntry>, id: u32) -> bool {
    exists|i: int| 0 <= i < s.len() && (#[trigger] s[i]).msg_id == id
}

/// The position of the compare-and-swap entry with this message id.
pub open spec fn cas_index(s: Seq<CasEntry>, id: u32) -> int {
    choose|i: int| 0 <= i < s.len() && (#[trigger] s[i]).msg_id == id
}

/// Does some read entry carry this message id?
pub open spec fn contains_read_id(s: Seq<ReadEntry>, id: u32) -> bool {
    exists|i: int| 0 <= i < s.len() && (#[trigger] s[i]).msg_id == id
}

/// The position of the read entry with this message id.
pub open spec fn read_index(s: Seq<ReadEntry>, id: u32) -> int {
    choose|i: int| 0 <= i < s.len() && (#[trigger] s[i]).msg_id == id
}

/// Once the entry holding an id is removed from an ordered
/// compare-and-swap queue, no entry with that id remains, so a second
/// delivery of the same reply matches nothing and changes no state.
pub proof fn lemma_removed_cas_id_absent(s: Seq<CasEntry>, id: u32)
    requires
        cas_sorted(s),
        contains_cas_id(s, id),
    ensures
        !contains_cas_id(s.remove(cas_index(s, id)), id),
        cas_sorted(s.remove(cas_index(s, id))),
{
    let i = cas_index(s, id);
    let t = s.remove(i);
    assert(forall|k: int| 0 <= k < i ==> t[k] == s[k]);
    assert(forall|k: int| i <= k < t.len() ==> t[k] == s[k + 1]);
    assert forall|k: int| 0 <= k < t.len() implies (#[trigger] t[k]).msg_id != id by {
        if k < i {
            assert(s[k].msg_id < s[i].msg_id);
        } else {
            assert(s[i].msg_id < s[k + 1].msg_id);
        }
    }
}

/// The read-queue counterpart of `lemma_removed_cas_id_absent`.
pub proof fn lemma_removed_read_id_absent(s: Seq<ReadEntry>, id: u32)
    requires
        reads_sorted(s),
        contains_read_id(s, id),
    ensures
        !contains_read_id(s.remove(read_index(s, id)), id),
        reads_sorted(s.remove(read_index(s, id))),
{
    let i = read_index(s, id);
    let t = s.remove(i);
    assert(forall|k: int| 0 <= k < i ==> t[k] == s[k]);
    assert(forall|k: int| i <= k < t.len() ==> t[k] == s[k + 1]);
    assert forall|k: int| 0 <= k < t.len() implies (#[trigger] t[k]).msg_id != id by {
        if k < i {
            assert(s[k].msg_id < s[i].msg_id);
        } else {
            assert(s[i].msg_id < s[k + 1].msg_id);
        }
    }
}

/// Finds the compare-and-swap entry with the given id by binary search.
fn find_cas(v: &Vec<CasEntry>, id: u32) -> (r: Option<usize>)
    requires
        cas_sorted(v@),
    ensures
        match r {
            Some(i) => i < v@.len() && v@[i as int].msg_id == id,
            None => !contains_cas_id(v@, id),
        },
{
    let mut lo: usize = 0;
    let mut hi: usize = v.len();
    while lo < hi
        invariant
            lo <= hi <= v@.len(),
            cas_sorted(v@),
            forall|k: int| 0 <= k < lo ==> (#[trigger] v@[k]).msg_id < id,
            forall|k: int| hi <= k < v@.len() ==> (#[trigger] v@[k]).msg_id > id,
        decreases hi - lo,
    {
        let mid = lo + (hi - lo) / 2;
        let entry = v[mid];
        if entry.msg_id < id {
            lo = mid + 1;
        } else if entry.msg_id > id {
            hi = mid;
        } else {
            return Some(mid);
        }
    }
    None
}

/// Finds the read entry with the given id by binary search.
fn find_read(v: &Vec<ReadEntry>, id: u32) -> (r: Option<usize>)
    requires
        reads_sorted(v@),
    ensures
        match r {
            Some(i) => i < v@.len() && v@[i as int].msg_id == id,
            None => !contains_read_id(v@, id),
        },
{
    let mut lo: usize = 0;
    let mut hi: usize = v.len();
    while lo < hi
        invariant
            lo <= hi <= v@.len(),
            reads_sorted(v@),
            forall|k: int| 0 <= k < lo ==> (#[trigger] v@[k]).msg_id < id,
            forall|k: int| hi <= k < v@.len() ==> (#[trigger] v@[k]).msg_id > id,
        decreases hi - lo,
    {
        let mid = lo + (hi - lo) / 2;
        let entry = v[mid];
        if entry.msg_id < id {
            lo = mid + 1;
        } else if entry.msg_id > id {
            hi = mid;
        } else {
            return Some(mid);
        }
    }
    None
}

/// The engine's whole state: the local estimate of the stored total and the
/// two ordered correlation queues.
pub struct CounterState {
    pub estimate: u32,
    pub inflight_cas: Vec<CasEntry>,
    pub pending_reads: Vec<ReadEntry>,
}

impl CounterState {
    /// Both queues strictly ordered by message id, so that every id matches
    /// at most one pending entry.
    pub open spec fn wf(self) -> bool {
        &&& cas_sorted(self.inflight_cas@)
        &&& reads_sorted(self.pending_reads@)
    }

    /// A fresh engine: estimate zero, nothing in flight.
    pub fn new() -> (r: Self)
        ensures
            r.wf(),
            r.estimate == 0,
            r.inflight_cas@ =~= Seq::<CasEntry>::empty(),
            r.pending_reads@ =~= Seq::<ReadEntry>::empty(),
    {
        CounterState { estimate: 0, inflight_cas: Vec::new(), pending_reads: Vec::new() }
    }

    /// Accepts an increment: the caller is acknowledged at once, and the
    /// returned compare-and-swap attempt, correlated as `cas_msg_id`, tries
    /// to move the stored value from the current estimate up by `delta`.
    pub fn handle_add(&mut self, delta: u32, cas_msg_id: u32) -> (r: CasRequest)
        requires
            old(self).wf(),
            old(self).estimate + delta <= u32::MAX,
            forall|i: int|
                0 <= i < old(self).inflight_cas@.len() ==> (#[trigger] old(
                    self,
                ).inflight_cas@[i]).msg_id < cas_msg_id,
        ensures
            final(self).wf(),
            r.from == old(self).estimate,
            r.to == old(self).estimate + delta,
            final(self).estimate == old(self).estimate,
            final(self).pending_reads@ == old(self).pending_reads@,
            final(self).inflight_cas@ == old(self).inflight_cas@.push(
                CasEntry { msg_id: cas_msg_id, delta },
            ),
    {
        let r = CasRequest { from: self.estimate, to: self.estimate + delta };
        self.inflight_cas.push(CasEntry { msg_id: cas_msg_id, delta });
        r
    }

    /// Accepts a read: the request against the store, correlated as
    /// `read_msg_id`, is recorded together with the requester the eventual
    /// answer is owed to.
    pub fn handle_read(&mut self, read_msg_id: u32, requester: NodeId, requester_msg_id: Option<
        u32,
    >)
        requires
            old(self).wf(),
            forall|i: int|
                0 <= i < old(self).pending_reads@.len() ==> (#[trigger] old(
                    self,
                ).pending_reads@[i]).msg_id < read_msg_id,
        ensures
            final(self).wf(),
            final(self).estimate == old(self).estimate,
            final(self).inflight_cas@ == old(self).inflight_cas@,
            final(self).pending_reads@ == old(self).pending_reads@.push(
                ReadEntry { msg_id: read_msg_id, requester, requester_msg_id },
            ),
    {
        self.pending_reads.push(ReadEntry { msg_id: read_msg_id, requester, requester_msg_id });
    }

    /// Takes the store's answer to a read: if the reply matches a pending
    /// read, that read is settled — the estimate is corrected to the stored
    /// value and the original requester is answered; a reply matching
    /// nothing is stale and changes no state.
    pub fn handle_read_ok(&mut self, in_reply_to: u32, value: u32) -> (r: Option<ReadReply>)
        requires
            old(self).wf(),
        ensures
            final(self).wf(),
            final(self).inflight_cas@ == old(self).inflight_cas@,
            if contains_read_id(old(self).pending_reads@, in_reply_to) {
                let i = read_index(old(self).pending_reads@, in_reply_to);
                &&& r == Some(
                    ReadReply {
                        dest: old(self).pending_reads@[i].requester,
                        in_reply_to: old(self).pending_reads@[i].requester_msg_id,
                        value,
                    },
                )
                &&& final(self).pending_reads@ == old(self).pending_reads@.remove(i)
                &&& final(self).estimate == value
            } else {
                &&& r is None
                &&& final(self).pending_reads@ == old(self).pending_reads@
                &&& final(self).estimate == old(self).estimate
            },
    {
        match find_read(&self.pending_reads, in_reply_to) {
            Some(i) => {
                proof {
                    assert(contains_read_id(self.pending_reads@, in_reply_to));
                    let j = read_index(self.pending_reads@, in_reply_to);
                    assert(self.pending_reads@[j].msg_id == in_reply_to);
                    assert(j == i as int) by {
                        if j < i as int {
                            assert(self.pending_reads@[j].msg_id
                                < self.pending_reads@[i as int].msg_id);
                        } else if j > i as int {
                            assert(self.pending_reads@[i as int].msg_id
                                < self.pending_reads@[j].msg_id);
                        }
                    }
                    lemma_removed_read_id_absent(self.pending_reads@, in_reply_to);
                }
                let entry = self.pending_reads.remove(i);
                self.estimate = value;
                Some(ReadReply { dest: entry.requester, in_reply_to: entry.requester_msg_id, value })
            },
            None => None,
        }
    }

    /// Takes the store's answer to a read that found no key: the counter
    /// was never written, so a matching pending read is answered with zero;
    /// the estimate is left as it was, and a stale reply changes nothing.
    pub fn handle_key_missing(&mut self, in_reply_to: u32) -> (r: Option<ReadReply>)
        requires
            old(self).wf(),
        ensures
            final(self).wf(),
            final(self).inflight_cas@ == old(self).inflight_cas@,
            final(self).estimate == old(self).estimate,
            if contains_read_id(old(self).pending_reads@, in_reply_to) {
                let i = read_index(old(self).pending_reads@, in_reply_to);
                &&& r == Some(
                    ReadReply {
                        dest: old(self).pending_reads@[i].requester,
                        in_reply_to: old(self).pending_reads@[i].requester_msg_id,
                        value: 0u32,
                    },
                )
                &&& final(self).pending_reads@ == old(self).pending_reads@.remove(i)
            } else {
                &&& r is None
                &&& final(self).pending_reads@ == old(self).pending_reads@
            },
    {
        match find_read(&self.pending_reads, in_reply_to) {
            Some(i) => {
                proof {
                    assert(contains_read_id(self.pending_reads@, in_reply_to));
                    let j = read_index(self.pending_reads@, in_reply_to);
                    assert(self.pending_reads@[j].msg_id == in_reply_to);
                    assert(j == i as int) by {
                        if j < i as int {
                            assert(self.pending_reads@[j].msg_id
                                < self.pending_reads@[i as int].msg_id);
                        } else if j > i as int {
                            assert(self.pending_reads@[i as int].msg_id
                                < self.pending_reads@[j].msg_id);
                        }
                    }
                    lemma_removed_read_id_absent(self.pending_reads@, in_reply_to);
                }
                let entry = self.pending_reads.remove(i);
                Some(
                    ReadReply {
                        dest: entry.requester,
                        in_reply_to: entry.requester_msg_id,
                        value: 0,
                    },
                )
            },
            None => None,
        }
    }

    /// Takes the store's acknowledgment of a compare-and-swap: a matching
    /// attempt is now committed, so its increment moves into the estimate;
    /// a reply matching nothing is stale and changes no state.
    pub fn handle_cas_ok(&mut self, in_reply_to: u32) -> (r: bool)
        requires
            old(self).wf(),
            forall|i: int|
                0 <= i < old(self).inflight_cas@.len() ==> old(self).estimate + (#[trigger] old(
                    self,
                ).inflight_cas@[i]).delta <= u32::MAX,
        ensures
            final(self).wf(),
            final(self).pending_reads@ == old(self).pending_reads@,
            if contains_cas_id(old(self).inflight_cas@, in_reply_to) {
                let i = cas_index(old(self).inflight_cas@, in_reply_to);
                &&& r == true
                &&& final(self).estimate == old(self).estimate + old(self).inflight_cas@[i].delta
                &&& final(self).inflight_cas@ == old(self).inflight_cas@.remove(i)
            } else {
                &&& r == false
                &&& final(self).estimate == old(self).estimate
                &&& final(self).inflight_cas@ == old(self).inflight_cas@
            },
    {
        match find_cas(&self.inflight_cas, in_reply_to) {
            Some(i) => {
                proof {
                    assert(contains_cas_id(self.inflight_cas@, in_reply_to));
                    let j = cas_index(self.inflight_cas@, in_reply_to);
                    assert(self.inflight_cas@[j].msg_id == in_reply_to);
                    assert(j == i as int) by {
                        if j < i as int {
                            assert(self.inflight_cas@[j].msg_id
                                < self.inflight_cas@[i as int].msg_id);
                        } else if j > i as int {
                            assert(self.inflight_cas@[i as int].msg_id
                                < self.inflight_cas@[j].msg_id);
                        }
                    }
                    lemma_removed_cas_id_absent(self.inflight_cas@, in_reply_to);
                }
                let entry = self.inflight_cas.remove(i);
                self.estimate = self.estimate + entry.delta;
                true
            },
            None => false,
        }
    }

    /// Takes the store's conflict reply to a compare-and-swap, carrying the
    /// value the store actually holds: the matching attempt was computed
    /// against a stale base, so every queued attempt is discarded and the
    /// matching increment alone is retried from the reported value, as the
    /// returned request correlated as `retry_msg_id`. A reply matching
    /// nothing is stale and changes no state.
    pub fn handle_cas_conflict(&mut self, in_reply_to: u32, actual: u32, retry_msg_id: u32) -> (r:
        Option<CasRequest>)
        requires
            old(self).wf(),
            forall|i: int|
                0 <= i < old(self).inflight_cas@.len() ==> actual + (#[trigger] old(
                    self,
                ).inflight_cas@[i]).delta <= u32::MAX,
        ensures
            final(self).wf(),
            final(self).pending_reads@ == old(self).pending_reads@,
            final(self).estimate == old(self).estimate,
            if contains_cas_id(old(self).inflight_cas@, in_reply_to) {
                let i = cas_index(old(self).inflight_cas@, in_reply_to);
                let d = old(self).inflight_cas@[i].delta;
                &&& r == Some(CasRequest { from: actual, to: (actual + d) as u32 })
                &&& final(self).inflight_cas@ =~= seq![
                    CasEntry { msg_id: retry_msg_id, delta: d },
                ]
            } else {
                &&& r is None
                &&& final(self).inflight_cas@ == old(self).inflight_cas@
            },
    {
        match find_cas(&self.inflight_cas, in_reply_to) {
            Some(i) => {
                proof {
                    assert(contains_cas_id(self.inflight_cas@, in_reply_to));
                    let j = cas_index(self.inflight_cas@, in_reply_to);
                    assert(self.inflight_cas@[j].msg_id == in_reply_to);
                    assert(j == i as int) by {
                        if j < i as int {
                            assert(self.inflight_cas@[j].msg_id
                                < self.inflight_cas@[i as int].msg_id);
                        } else if j > i as int {
                            assert(self.inflight_cas@[i as int].msg_id
                                < self.inflight_cas@[j].msg_id);
                        }
                    }
                }
                let delta = self.inflight_cas[i].delta;
                self.inflight_cas.clear();
                self.inflight_cas.push(CasEntry { msg_id: retry_msg_id, delta });
                Some(CasRequest { from: actual, to: actual + delta })
            },
            None => None,
        }
    }
}

} // verus!
