//! The gossip-based anti-entropy broadcast engine: the locally known value
//! set, a per-neighbor record of what that neighbor has been seen to hold,
//! and the periodic tick that ships each neighbor the values it has not
//! yet confirmed, again and again until a receipt or an acknowledgment
//! confirms them.

use vstd::prelude::*;

use crate::node_id::{lemma_node_le_props, lemma_node_le_total_ordering, node_le, node_le_fn, NodeId};

verus! {

/// One anti-entropy payload shipped to a single neighbor, retained under
/// its per-neighbor increasing id until acknowledged.
pub struct GossipBatch {
    pub gossip_id: u32,
    pub values: Vec<u32>,
}

/// Everything the engine keeps about one peer: which values it is believed
/// to have seen, and which shipped batches still await acknowledgment.
pub struct PeerRecord {
    pub id: NodeId,
    pub known: Vec<u32>,
    pub pending: Vec<GossipBatch>,
}

/// One outbound gossip message a tick asks the runtime to send.
pub struct GossipOut {
    pub dest: NodeId,
    pub gossip_id: u32,
    pub values: Vec<u32>,
}

/// Are the batches strictly ordered by their ids?
pub open spec fn batch_sorted(s: Seq<GossipBatch>) -> bool {
    forall|i: int, j: int| 0 <= i < j < s.len() ==> s[i].gossip_id < s[j].gossip_id
}

impl PeerRecord {
    /// The record's own shape: a duplicate-free belief that never exceeds
    /// the node's values, and pending batches, ordered by ids the engine
    /// has already handed out, whose values were all shipped out of the
    /// node's own value set.
    pub open spec fn wf(self, values: Set<u32>, next_gossip_id: u32) -> bool {
        &&& self.known@.no_duplicates()
        &&& self.known@.to_set().subset_of(values)
        &&& batch_sorted(self.pending@)
        &&& forall|k: int|
            0 <= k < self.pending@.len() ==> (#[trigger] self.pending@[k]).gossip_id
                <= next_gossip_id
        &&& forall|k: int|
            0 <= k < self.pending@.len() ==> (#[trigger] self.pending@[k]).values@.to_set().subset_of(
                values,
            )
    }
}

/// A record well-formed against some value set and id bound is well-formed
/// against any larger ones: both bounds only grow.
pub proof fn lemma_record_wf_weaken(rec: PeerRecord, v1: Set<u32>, v2: Set<u32>, g1: u32, g2: u32)
    requires
        rec.wf(v1, g1),
        v1.subset_of(v2),
        g1 <= g2,
    ensures
        rec.wf(v2, g2),
{
    assert forall|k: int| 0 <= k < rec.pending@.len() implies (
    #[trigger] rec.pending@[k]).values@.to_set().subset_of(v2) by {
        assert(rec.pending@[k].values@.to_set().subset_of(v1));
    }
    assert(rec.known@.to_set().subset_of(v2));
}

/// Does some batch of the queue carry this id?
pub open spec fn pending_has_id(p: Seq<GossipBatch>, g: u32) -> bool {
    exists|b: int| 0 <= b < p.len() && (#[trigger] p[b]).gossip_id == g
}

/// The position of the batch carrying this id.
pub open spec fn pending_at_id(p: Seq<GossipBatch>, g: u32) -> int {
    choose|b: int| 0 <= b < p.len() && (#[trigger] p[b]).gossip_id == g
}

/// In a queue ordered by ids, the batch at `i` is the one its id picks.
pub proof fn lemma_pending_at_id(p: Seq<GossipBatch>, g: u32, i: int)
    requires
        batch_sorted(p),
        0 <= i < p.len(),
        p[i].gossip_id == g,
    ensures
        pending_has_id(p, g),
        pending_at_id(p, g) == i,
{
    assert(pending_has_id(p, g));
    let j = pending_at_id(p, g);
    if j < i {
        assert(p[j].gossip_id < p[i].gossip_id);
    } else if j > i {
        assert(p[i].gossip_id < p[j].gossip_id);
    }
}

/// At most one record per peer.
pub open spec fn peers_unique(peers: Seq<PeerRecord>) -> bool {
    forall|i: int, j: int|
        0 <= i < j < peers.len() ==> (#[trigger] peers[i]).id != (#[trigger] peers[j]).id
}

/// Is some record about `n`?
pub open spec fn has_peer_in(peers: Seq<PeerRecord>, n: NodeId) -> bool {
    exists|i: int| 0 <= i < peers.len() && (#[trigger] peers[i]).id == n
}

/// The position of the record about `n`.
pub open spec fn peer_at_in(peers: Seq<PeerRecord>, n: NodeId) -> int {
    choose|i: int| 0 <= i < peers.len() && (#[trigger] peers[i]).id == n
}

/// The values `n` is believed to have seen (nothing, before any exchange).
pub open spec fn known_of_in(peers: Seq<PeerRecord>, n: NodeId) -> Set<u32> {
    if has_peer_in(peers, n) {
        peers[peer_at_in(peers, n)].known@.to_set()
    } else {
        Set::empty()
    }
}

/// The batches shipped to `n` that still await acknowledgment.
pub open spec fn pending_of_in(peers: Seq<PeerRecord>, n: NodeId) -> Seq<GossipBatch> {
    if has_peer_in(peers, n) {
        peers[peer_at_in(peers, n)].pending@
    } else {
        Seq::empty()
    }
}

/// With unique records, the record at `i` is the one `peer_at_in` picks.
pub proof fn lemma_peer_at_in(peers: Seq<PeerRecord>, n: NodeId, i: int)
    requires
        peers_unique(peers),
        0 <= i < peers.len(),
        peers[i].id == n,
    ensures
        has_peer_in(peers, n),
        peer_at_in(peers, n) == i,
{
    assert(has_peer_in(peers, n));
    let j = peer_at_in(peers, n);
    if j < i {
        assert(peers[j].id != peers[i].id);
    } else if j > i {
        assert(peers[i].id != peers[j].id);
    }
}

/// Records whose ids agree everywhere and whose contents agree off `i`
/// describe every peer but `peers1[i].id` identically.
pub proof fn lemma_peer_frame(peers1: Seq<PeerRecord>, peers2: Seq<PeerRecord>, i: int)
    requires
        peers_unique(peers1),
        0 <= i < peers1.len(),
        peers2.len() == peers1.len(),
        forall|k: int| 0 <= k < peers1.len() ==> (#[trigger] peers2[k]).id == peers1[k].id,
        forall|k: int| 0 <= k < peers1.len() && k != i ==> peers2[k] == peers1[k],
    ensures
        peers_unique(peers2),
        forall|n: NodeId|
            n != peers1[i].id ==> #[trigger] known_of_in(peers2, n) == known_of_in(peers1, n),
        forall|n: NodeId|
            n != peers1[i].id ==> #[trigger] pending_of_in(peers2, n) == pending_of_in(peers1, n),
{
    assert forall|n: NodeId| n != peers1[i].id implies #[trigger] known_of_in(peers2, n)
        == known_of_in(peers1, n) && #[trigger] pending_of_in(peers2, n) == pending_of_in(
        peers1,
        n,
    ) by {
        if has_peer_in(peers1, n) {
            let k = peer_at_in(peers1, n);
            assert(peers2[k].id == n);
            lemma_peer_at_in(peers2, n, k);
            assert(k != i);
        } else {
            if has_peer_in(peers2, n) {
                let k = peer_at_in(peers2, n);
                assert(peers1[k].id == n);
            }
        }
    }
}

/// Appending a record about a new peer describes every other peer as
/// before, and the new one by the record itself.
pub proof fn lemma_peer_push_frame(peers: Seq<PeerRecord>, rec: PeerRecord)
    requires
        peers_unique(peers),
        !has_peer_in(peers, rec.id),
    ensures
        peers_unique(peers.push(rec)),
        forall|n: NodeId|
            n != rec.id ==> #[trigger] known_of_in(peers.push(rec), n) == known_of_in(peers, n),
        forall|n: NodeId|
            n != rec.id ==> #[trigger] pending_of_in(peers.push(rec), n) == pending_of_in(
                peers,
                n,
            ),
        known_of_in(peers.push(rec), rec.id) == rec.known@.to_set(),
        pending_of_in(peers.push(rec), rec.id) == rec.pending@,
{
    let p2 = peers.push(rec);
    assert(forall|k: int| 0 <= k < peers.len() ==> p2[k] == peers[k]);
    assert(p2[peers.len() as int] == rec);
    assert(peers_unique(p2)) by {
        assert forall|i: int, j: int| 0 <= i < j < p2.len() implies (#[trigger] p2[i]).id
            != (#[trigger] p2[j]).id by {
            if j == peers.len() as int {
                assert(p2[i] == peers[i]);
                if p2[i].id == rec.id {
                    lemma_peer_at_in(peers, rec.id, i);
                }
            }
        }
    }
    lemma_peer_at_in(p2, rec.id, peers.len() as int);
    assert forall|n: NodeId| n != rec.id implies #[trigger] known_of_in(p2, n) == known_of_in(
        peers,
        n,
    ) && #[trigger] pending_of_in(p2, n) == pending_of_in(peers, n) by {
        if has_peer_in(peers, n) {
            let k = peer_at_in(peers, n);
            lemma_peer_at_in(p2, n, k);
        } else {
            if has_peer_in(p2, n) {
                let k = peer_at_in(p2, n);
                if k < peers.len() {
                    assert(peers[k].id == n);
                }
            }
        }
    }
}

/// Does `v` hold `x`?
fn contains_u32(v: &Vec<u32>, x: u32) -> (r: bool)
    ensures
        r == v@.contains(x),
{
    let mut i: usize = 0;
    while i < v.len()
        invariant
            i <= v@.len(),
            forall|k: int| 0 <= k < i ==> v@[k] != x,
        decreases v@.len() - i,
    {
        if v[i] == x {
            return true;
        }
        i = i + 1;
    }
    false
}

/// A copy of `v`.
fn clone_values(v: &Vec<u32>) -> (r: Vec<u32>)
    ensures
        r@ == v@,
{
    let mut r: Vec<u32> = Vec::new();
    let mut i: usize = 0;
    while i < v.len()
        invariant
            i <= v@.len(),
            r@ =~= v@.take(i as int),
        decreases v@.len() - i,
    {
        r.push(v[i]);
        proof {
            assert(v@.take(i + 1) =~= v@.take(i as int).push(v@[i as int]));
        }
        i = i + 1;
    }
    proof {
        assert(v@.take(v@.len() as int) =~= v@);
    }
    r
}

/// Inserts `x` into the duplicate-free `v` unless already present.
fn insert_value(v: &mut Vec<u32>, x: u32)
    requires
        old(v)@.no_duplicates(),
    ensures
        final(v)@.no_duplicates(),
        final(v)@.to_set() == old(v)@.to_set().insert(x),
{
    if !contains_u32(v, x) {
        let ghost s = v@;
        v.push(x);
        proof {
            assert(final(v)@.no_duplicates()) by {
                assert(forall|k: int| 0 <= k < s.len() ==> v@[k] == s[k]);
                assert(v@[s.len() as int] == x);
            }
            assert(v@.to_set() =~= s.to_set().insert(x)) by {
                assert(forall|y: u32| s.contains(y) ==> #[trigger] v@.contains(y)) by {
                    assert(forall|k: int| 0 <= k < s.len() ==> v@[k] == s[k]);
                }
                assert(v@.contains(x)) by {
                    assert(v@[s.len() as int] == x);
                }
                assert(forall|y: u32| #[trigger] v@.contains(y) ==> s.contains(y) || y == x) by {
                    assert(forall|k: int| 0 <= k < s.len() ==> v@[k] == s[k]);
                }
            }
        }
    } else {
        proof {
            assert(v@.to_set() =~= v@.to_set().insert(x));
        }
    }
}

/// Merges every value of `src` into the duplicate-free `dst`.
fn merge_values(dst: &mut Vec<u32>, src: &Vec<u32>)
    requires
        old(dst)@.no_duplicates(),
    ensures
        final(dst)@.no_duplicates(),
        final(dst)@.to_set() == old(dst)@.to_set().union(src@.to_set()),
{
    let ghost s0 = old(dst)@;
    let mut i: usize = 0;
    while i < src.len()
        invariant
            i <= src@.len(),
            dst@.no_duplicates(),
            dst@.to_set() == s0.to_set().union(src@.take(i as int).to_set()),
        decreases src@.len() - i,
    {
        let ghost before = dst@;
        insert_value(dst, src[i]);
        proof {
            assert(src@.take(i + 1) =~= src@.take(i as int).push(src@[i as int]));
            src@.take(i as int).lemma_push_to_set_commute(src@[i as int]);
            assert(dst@.to_set() =~= s0.to_set().union(src@.take(i + 1).to_set())) by {
                assert(dst@.to_set() == before.to_set().insert(src@[i as int]));
                assert(src@.take(i + 1).to_set() == src@.take(i as int).to_set().insert(
                    src@[i as int],
                ));
            }
        }
        i = i + 1;
    }
    proof {
        assert(src@.take(src@.len() as int) =~= src@);
    }
}

/// The values of `values` that `known` misses, each once.
fn diff_values(values: &Vec<u32>, known: &Vec<u32>) -> (r: Vec<u32>)
    requires
        values@.no_duplicates(),
    ensures
        r@.no_duplicates(),
        r@.to_set() == values@.to_set().difference(known@.to_set()),
        r@.len() == 0 <==> values@.to_set().difference(known@.to_set()) == Set::<u32>::empty(),
{
    let mut r: Vec<u32> = Vec::new();
    let mut i: usize = 0;
    while i < values.len()
        invariant
            i <= values@.len(),
            values@.no_duplicates(),
            r@.no_duplicates(),
            r@.to_set() == values@.take(i as int).to_set().difference(known@.to_set()),
            forall|m: int| 0 <= m < r@.len() ==> values@.take(i as int).contains(#[trigger] r@[m]),
        decreases values@.len() - i,
    {
        let x = values[i];
        proof {
            assert(values@.take(i + 1) =~= values@.take(i as int).push(values@[i as int]));
            values@.take(i as int).lemma_push_to_set_commute(values@[i as int]);
        }
        if !contains_u32(known, x) {
            let ghost before = r@;
            proof {
                assert(!before.contains(x)) by {
                    if before.contains(x) {
                        let m = choose|m: int| 0 <= m < before.len() && before[m] == x;
                        assert(values@.take(i as int).contains(x));
                        let q = choose|q: int|
                            0 <= q < i && #[trigger] values@.take(i as int)[q] == x;
                        assert(values@[q] == values@[i as int]);
                    }
                }
            }
            r.push(x);
            proof {
                assert(forall|k: int| 0 <= k < before.len() ==> r@[k] == before[k]);
                assert(r@[before.len() as int] == x);
                assert(r@.no_duplicates());
                before.lemma_push_to_set_commute(x);
                assert(r@.to_set() =~= values@.take(i + 1).to_set().difference(known@.to_set()));
                assert(forall|m: int|
                    0 <= m < r@.len() ==> values@.take(i + 1).contains(#[trigger] r@[m])) by {
                    assert(forall|m: int|
                        0 <= m < before.len() && values@.take(i as int).contains(
                            #[trigger] before[m],
                        ) ==> values@.take(i + 1).contains(before[m]));
                    assert(values@.take(i + 1).contains(x)) by {
                        assert(values@.take(i + 1)[i as int] == x);
                    }
                }
            }
        } else {
            proof {
                assert(r@.to_set() =~= values@.take(i + 1).to_set().difference(known@.to_set()));
                assert(forall|m: int|
                    0 <= m < r@.len() ==> values@.take(i + 1).contains(#[trigger] r@[m])) by {
                    assert(forall|m: int|
                        0 <= m < r@.len() && values@.take(i as int).contains(#[trigger] r@[m])
                            ==> values@.take(i + 1).contains(r@[m]));
                }
            }
        }
        i = i + 1;
    }
    proof {
        assert(values@.take(values@.len() as int) =~= values@);
        if r@.len() == 0 {
            assert(r@.to_set() =~= Set::<u32>::empty());
        } else {
            assert(r@.to_set().contains(r@[0]));
        }
    }
    r
}

/// The position of the record about `n`, if one exists.
fn find_peer(peers: &Vec<PeerRecord>, n: NodeId) -> (r: Option<usize>)
    ensures
        match r {
            Some(i) => i < peers@.len() && peers@[i as int].id == n,
            None => !has_peer_in(peers@, n),
        },
{
    let mut i: usize = 0;
    while i < peers.len()
        invariant
            i <= peers@.len(),
            forall|k: int| 0 <= k < i ==> (#[trigger] peers@[k]).id != n,
        decreases peers@.len() - i,
    {
        if peers[i].id == n {
            return Some(i);
        }
        i = i + 1;
    }
    None
}

/// The position of the record about `n`, created empty if absent.
fn ensure_peer(peers: &mut Vec<PeerRecord>, n: NodeId) -> (i: usize)
    requires
        peers_unique(old(peers)@),
    ensures
        peers_unique(final(peers)@),
        i < final(peers)@.len(),
        final(peers)@[i as int].id == n,
        has_peer_in(final(peers)@, n),
        peer_at_in(final(peers)@, n) == i as int,
        known_of_in(final(peers)@, n) == known_of_in(old(peers)@, n),
        pending_of_in(final(peers)@, n) == pending_of_in(old(peers)@, n),
        forall|m: NodeId|
            m != n ==> #[trigger] known_of_in(final(peers)@, m) == known_of_in(old(peers)@, m),
        forall|m: NodeId|
            m != n ==> #[trigger] pending_of_in(final(peers)@, m) == pending_of_in(old(peers)@, m),
        has_peer_in(old(peers)@, n) ==> final(peers)@ == old(peers)@,
        !has_peer_in(old(peers)@, n) ==> {
            &&& final(peers)@.len() == old(peers)@.len() + 1
            &&& final(peers)@.take(old(peers)@.len() as int) == old(peers)@
            &&& i as int == old(peers)@.len()
            &&& final(peers)@[i as int].known@ == Seq::<u32>::empty()
            &&& final(peers)@[i as int].pending@ == Seq::<GossipBatch>::empty()
        },
{
    match find_peer(peers, n) {
        Some(i) => {
            proof {
                lemma_peer_at_in(peers@, n, i as int);
            }
            i
        },
        None => {
            let i = peers.len();
            let rec = PeerRecord { id: n, known: Vec::new(), pending: Vec::new() };
            proof {
                lemma_peer_push_frame(peers@, rec);
            }
            peers.push(rec);
            proof {
                lemma_peer_at_in(peers@, n, i as int);
            }
            i
        },
    }
}

/// The whole broadcast state of one node: every value it has ever seen,
/// its per-peer beliefs and pending batches, the neighbors it gossips to,
/// and the last batch id it handed out.
pub struct BroadcastState {
    pub values: Vec<u32>,
    pub peers: Vec<PeerRecord>,
    pub neighbors: Vec<NodeId>,
    pub next_gossip_id: u32,
}

impl BroadcastState {
    /// The set of values this node has seen.
    pub open spec fn vals(self) -> Set<u32> {
        self.values@.to_set()
    }

    /// The values `n` is believed to have seen.
    pub open spec fn known_of(self, n: NodeId) -> Set<u32> {
        known_of_in(self.peers@, n)
    }

    /// The batches shipped to `n` that still await acknowledgment.
    pub open spec fn pending_of(self, n: NodeId) -> Seq<GossipBatch> {
        pending_of_in(self.peers@, n)
    }

    /// The engine's invariant. In particular, every belief about a
    /// neighbor stays within the node's own values: a value is marked
    /// known only after being received from that neighbor or after the
    /// neighbor acknowledged a batch carrying it.
    pub open spec fn wf(self) -> bool {
        &&& self.values@.no_duplicates()
        &&& peers_unique(self.peers@)
        &&& forall|i: int|
            0 <= i < self.peers@.len() ==> (#[trigger] self.peers@[i]).wf(
                self.values@.to_set(),
                self.next_gossip_id,
            )
    }

    /// A fresh engine: no values, no beliefs, no neighbors.
    pub fn new() -> (r: Self)
        ensures
            r.wf(),
            r.vals() == Set::<u32>::empty(),
            r.neighbors@ == Seq::<NodeId>::empty(),
            forall|n: NodeId| #[trigger] r.known_of(n) == Set::<u32>::empty(),
            forall|n: NodeId| #[trigger] r.pending_of(n) == Seq::<GossipBatch>::empty(),
            r.next_gossip_id == 0,
    {
        let r = BroadcastState {
            values: Vec::new(),
            peers: Vec::new(),
            neighbors: Vec::new(),
            next_gossip_id: 0,
        };
        proof {
            assert(r.values@.to_set() =~= Set::<u32>::empty());
            assert(forall|n: NodeId| !has_peer_in(r.peers@, n));
        }
        r
    }

    /// Accepts a broadcast value: the value set grows by it and nothing
    /// else changes; re-delivering a value the node has seen is a no-op.
    pub fn handle_broadcast(&mut self, value: u32)
        requires
            old(self).wf(),
        ensures
            final(self).wf(),
            final(self).vals() == old(self).vals().insert(value),
            old(self).vals().subset_of(final(self).vals()),
            final(self).peers@ == old(self).peers@,
            final(self).neighbors@ == old(self).neighbors@,
            final(self).next_gossip_id == old(self).next_gossip_id,
    {
        insert_value(&mut self.values, value);
        proof {
            assert forall|i: int| 0 <= i < self.peers@.len() implies (#[trigger] self.peers@[i]).wf(
                self.values@.to_set(),
                self.next_gossip_id,
            ) by {
                lemma_record_wf_weaken(
                    self.peers@[i],
                    old(self).values@.to_set(),
                    self.values@.to_set(),
                    self.next_gossip_id,
                    self.next_gossip_id,
                );
            }
        }
    }

    /// A snapshot copy of the values this node has seen.
    pub fn handle_read(&self) -> (r: Vec<u32>)
        requires
            self.wf(),
        ensures
            r@.to_set() == self.vals(),
            r@.no_duplicates(),
    {
        clone_values(&self.values)
    }

    /// Adopts the supplied out-edges as this node's gossip neighbors.
    pub fn handle_topology(&mut self, neighbors: Vec<NodeId>)
        requires
            old(self).wf(),
        ensures
            final(self).wf(),
            final(self).neighbors@ == neighbors@,
            final(self).values@ == old(self).values@,
            final(self).peers@ == old(self).peers@,
            final(self).next_gossip_id == old(self).next_gossip_id,
    {
        self.neighbors = neighbors;
    }

    /// Takes a gossip batch from `src`: its values merge into this node's
    /// values and into what `src` is now known to have seen; the caller
    /// still owes `src` an acknowledgment of the batch id.
    pub fn handle_gossip(&mut self, src: NodeId, incoming: &Vec<u32>)
        requires
            old(self).wf(),
        ensures
            final(self).wf(),
            final(self).vals() == old(self).vals().union(incoming@.to_set()),
            old(self).vals().subset_of(final(self).vals()),
            final(self).known_of(src) == old(self).known_of(src).union(incoming@.to_set()),
            forall|n: NodeId| n != src ==> #[trigger] final(self).known_of(n) == old(self).known_of(n),
            forall|n: NodeId| #[trigger] final(self).pending_of(n) == old(self).pending_of(n),
            final(self).neighbors@ == old(self).neighbors@,
            final(self).next_gossip_id == old(self).next_gossip_id,
    {
        merge_values(&mut self.values, incoming);
        let i = ensure_peer(&mut self.peers, src);
        let ghost mid = self.peers@;
        let mut rec = self.peers.remove(i);
        let ghost rec0 = rec;
        merge_values(&mut rec.known, incoming);
        let ghost rec1 = rec;
        self.peers.insert(i, rec);
        proof {
            assert(self.peers@ =~= mid.update(i as int, rec1));
            assert(forall|k: int| 0 <= k < mid.len() ==> (#[trigger] self.peers@[k]).id == mid[k].id);
            lemma_peer_frame(mid, self.peers@, i as int);
            lemma_peer_at_in(self.peers@, src, i as int);
            assert(self.peers@[i as int].known@.to_set() == mid[i as int].known@.to_set().union(
                incoming@.to_set(),
            ));
            assert(final(self).known_of(src) == old(self).known_of(src).union(incoming@.to_set()));
            assert(self.peers@[i as int].pending@ == mid[i as int].pending@);
            assert forall|n: NodeId| #[trigger] pending_of_in(self.peers@, n) == pending_of_in(
                mid,
                n,
            ) by {
                if n == src {
                    assert(pending_of_in(self.peers@, src) == rec1.pending@);
                    assert(rec1.pending@ == mid[i as int].pending@);
                    lemma_peer_at_in(mid, src, i as int);
                    assert(pending_of_in(mid, src) == mid[i as int].pending@);
                }
            }
            assert(old(self).values@.to_set().subset_of(self.values@.to_set()));
            assert forall|k: int| 0 <= k < mid.len() implies (#[trigger] mid[k]).wf(
                old(self).values@.to_set(),
                self.next_gossip_id,
            ) by {
                if !has_peer_in(old(self).peers@, src) && k == mid.len() - 1 {
                    assert(mid[k].known@.to_set() =~= Set::<u32>::empty());
                    assert(mid[k].pending@ == Seq::<GossipBatch>::empty());
                } else {
                    assert(mid.take(old(self).peers@.len() as int) == old(self).peers@ || mid
                        == old(self).peers@);
                    assert(mid[k] == old(self).peers@[k]) by {
                        if !has_peer_in(old(self).peers@, src) {
                            assert(mid.take(old(self).peers@.len() as int)[k] == mid[k]);
                        }
                    }
                }
            }
            assert forall|k: int| 0 <= k < self.peers@.len() implies (#[trigger] self.peers@[k]).wf(
                self.values@.to_set(),
                self.next_gossip_id,
            ) by {
                if k == i as int {
                    assert(mid[k].wf(old(self).values@.to_set(), self.next_gossip_id));
                    assert(rec1.known@.no_duplicates());
                    assert(rec1.known@.to_set().subset_of(self.values@.to_set()));
                    assert(rec1.pending@ == mid[k].pending@);
                    lemma_record_wf_weaken(
                        mid[k],
                        old(self).values@.to_set(),
                        self.values@.to_set(),
                        self.next_gossip_id,
                        self.next_gossip_id,
                    );
                } else {
                    assert(self.peers@[k] == mid[k]);
                    lemma_record_wf_weaken(
                        mid[k],
                        old(self).values@.to_set(),
                        self.values@.to_set(),
                        self.next_gossip_id,
                        self.next_gossip_id,
                    );
                }
            }
        }
    }

    /// Takes `src`'s acknowledgment of a batch: the acknowledged batch's
    /// values are now known to have been received by `src`, and
    /// acknowledgments are cumulative, so every pending batch for `src`
    /// with an id up to the acknowledged one is discarded; an
    /// acknowledgment from an untracked peer, or for an already-discarded
    /// id, changes nothing.
    pub fn handle_gossip_response(&mut self, src: NodeId, gossip_id: u32)
        requires
            old(self).wf(),
        ensures
            final(self).wf(),
            final(self).values@ == old(self).values@,
            final(self).neighbors@ == old(self).neighbors@,
            final(self).next_gossip_id == old(self).next_gossip_id,
            forall|n: NodeId|
                n != src ==> #[trigger] final(self).known_of(n) == old(self).known_of(n),
            if pending_has_id(old(self).pending_of(src), gossip_id) {
                final(self).known_of(src) == old(self).known_of(src).union(
                    old(self).pending_of(src)[pending_at_id(
                        old(self).pending_of(src),
                        gossip_id,
                    )].values@.to_set(),
                )
            } else {
                final(self).known_of(src) == old(self).known_of(src)
            },
            final(self).pending_of(src) == old(self).pending_of(src).filter(
                batch_newer_than(gossip_id),
            ),
            forall|n: NodeId|
                n != src ==> #[trigger] final(self).pending_of(n) == old(self).pending_of(n),
    {
        let ghost pred = batch_newer_than(gossip_id);
        match find_peer(&self.peers, src) {
            None => {
                proof {
                    assert(old(self).pending_of(src) =~= Seq::<GossipBatch>::empty());
                    assert(Seq::<GossipBatch>::empty().filter(pred) =~= Seq::<
                        GossipBatch,
                    >::empty()) by {
                        reveal(Seq::filter);
                    }
                    assert(!pending_has_id(old(self).pending_of(src), gossip_id));
                }
            },
            Some(i) => {
                proof {
                    lemma_peer_at_in(self.peers@, src, i as int);
                }
                let ghost mid = self.peers@;
                let rec = self.peers.remove(i);
                let PeerRecord { id: rid, known: mut rknown, pending: mut source } = rec;
                let ghost pend0 = mid[i as int].pending@;
                let ghost known0 = rknown@;
                let mut retained: Vec<GossipBatch> = Vec::new();
                let mut acked: Option<Vec<u32>> = None;
                proof {
                    assert(batch_sorted(pend0)) by {
                        assert(mid[i as int].wf(self.values@.to_set(), self.next_gossip_id));
                    }
                    assert(pend0.take(0) =~= Seq::<GossipBatch>::empty());
                    assert(Seq::<GossipBatch>::empty().filter(pred) =~= Seq::<
                        GossipBatch,
                    >::empty()) by {
                        reveal(Seq::filter);
                    }
                    assert(source@ =~= pend0.skip(0));
                }
                while source.len() > 0
                    invariant
                        source@.len() <= pend0.len(),
                        source@ == pend0.skip(pend0.len() - source@.len()),
                        retained@ == pend0.take(pend0.len() - source@.len()).filter(pred),
                        pred == batch_newer_than(gossip_id),
                        batch_sorted(pend0),
                        batch_sorted(retained@),
                        forall|m: int|
                            0 <= m < retained@.len() ==> exists|q: int|
                                0 <= q < pend0.len() - source@.len() && pend0[q]
                                    == #[trigger] retained@[m],
                        acked is None ==> !pending_has_id(
                            pend0.take(pend0.len() - source@.len()),
                            gossip_id,
                        ),
                        acked matches Some(v) ==> pending_has_id(pend0, gossip_id) && v@
                            == pend0[pending_at_id(pend0, gossip_id)].values@,
                    decreases source@.len(),
                {
                    let ghost d = pend0.len() - source@.len();
                    let ghost r0 = retained@;
                    let ghost acked0 = acked;
                    let b = source.remove(0);
                    proof {
                        assert(b == pend0[d as int]);
                        assert(source@ =~= pend0.skip(d + 1));
                        assert(pend0.take(d + 1) =~= pend0.take(d as int).push(pend0[d as int]));
                        assert(pend0.take(d + 1).filter(pred) == if pred(pend0[d as int]) {
                            pend0.take(d as int).filter(pred).push(pend0[d as int])
                        } else {
                            pend0.take(d as int).filter(pred)
                        }) by {
                            reveal(Seq::filter);
                            assert(pend0.take(d + 1).drop_last() =~= pend0.take(d as int));
                            assert(pend0.take(d + 1).last() == pend0[d as int]);
                        }
                    }
                    if b.gossip_id > gossip_id {
                        proof {
                            assert(pred(pend0[d as int]));
                            assert forall|m: int| 0 <= m < r0.len() implies (
                            #[trigger] r0[m]).gossip_id < b.gossip_id by {
                                let q = choose|q: int| 0 <= q < d && pend0[q] == r0[m];
                                assert(pend0[q].gossip_id < pend0[d as int].gossip_id);
                            }
                            assert(acked0 is None ==> !pending_has_id(
                                pend0.take(d + 1),
                                gossip_id,
                            )) by {
                                if acked0 is None && pending_has_id(pend0.take(d + 1), gossip_id) {
                                    let q = choose|q: int|
                                        0 <= q < d + 1 && (#[trigger] pend0.take(d + 1)[q]).gossip_id
                                            == gossip_id;
                                    assert(pend0.take(d as int)[q] == pend0.take(d + 1)[q]
                                        || q == d);
                                }
                            }
                        }
                        retained.push(b);
                        proof {
                            assert(retained@ == r0.push(pend0[d as int]));
                            assert(batch_sorted(retained@)) by {
                                assert(forall|m: int| 0 <= m < r0.len() ==> retained@[m] == r0[m]);
                                assert(retained@[r0.len() as int] == pend0[d as int]);
                            }
                            assert forall|m: int| 0 <= m < retained@.len() implies exists|q: int|
                                0 <= q < d + 1 && pend0[q] == #[trigger] retained@[m] by {
                                if m < r0.len() {
                                    let q = choose|q: int| 0 <= q < d && pend0[q] == r0[m];
                                    assert(retained@[m] == r0[m]);
                                    assert(pend0[q] == retained@[m]);
                                } else {
                                    assert(retained@[m] == pend0[d as int]);
                                }
                            }
                        }
                    } else {
                        proof {
                            assert(!pred(pend0[d as int]));
                        }
                        if b.gossip_id == gossip_id {
                            proof {
                                lemma_pending_at_id(pend0, gossip_id, d as int);
                            }
                            acked = Some(b.values);
                        } else {
                            proof {
                                assert(acked0 is None ==> !pending_has_id(
                                    pend0.take(d + 1),
                                    gossip_id,
                                )) by {
                                    if acked0 is None && pending_has_id(
                                        pend0.take(d + 1),
                                        gossip_id,
                                    ) {
                                        let q = choose|q: int|
                                            0 <= q < d + 1 && (#[trigger] pend0.take(d + 1)[q]).gossip_id
                                                == gossip_id;
                                        assert(pend0.take(d as int)[q] == pend0.take(d + 1)[q]
                                            || q == d);
                                    }
                                }
                            }
                        }
                    }
                }
                proof {
                    assert(pend0.take(pend0.len() as int) =~= pend0);
                    assert(retained@ == pend0.filter(pred));
                    assert(acked is None ==> !pending_has_id(pend0, gossip_id));
                }
                if let Some(values) = acked {
                    proof {
                        let bi = pending_at_id(pend0, gossip_id);
                        assert(pend0[bi].values@.to_set().subset_of(self.values@.to_set())) by {
                            assert(mid[i as int].wf(self.values@.to_set(), self.next_gossip_id));
                        }
                    }
                    merge_values(&mut rknown, &values);
                }
                let rec2 = PeerRecord { id: rid, known: rknown, pending: retained };
                self.peers.insert(i, rec2);
                proof {
                    let ghost rec1 = self.peers@[i as int];
                    assert(self.peers@ =~= mid.update(i as int, rec1));
                    assert(forall|k2: int|
                        0 <= k2 < mid.len() ==> (#[trigger] self.peers@[k2]).id == mid[k2].id);
                    lemma_peer_frame(mid, self.peers@, i as int);
                    lemma_peer_at_in(self.peers@, src, i as int);
                    assert(known_of_in(self.peers@, src) == rec1.known@.to_set());
                    assert(known_of_in(mid, src) == known0.to_set());
                    assert(pending_of_in(self.peers@, src) == pend0.filter(pred));
                    if pending_has_id(pend0, gossip_id) {
                        let bi = pending_at_id(pend0, gossip_id);
                        assert(rec1.known@.to_set() == known0.to_set().union(
                            pend0[bi].values@.to_set(),
                        ));
                    } else {
                        assert(rec1.known@.to_set() =~= known0.to_set());
                    }
                    assert forall|k2: int| 0 <= k2 < self.peers@.len() implies (
                    #[trigger] self.peers@[k2]).wf(self.values@.to_set(), self.next_gossip_id) by {
                        if k2 == i as int {
                            assert(mid[k2].wf(self.values@.to_set(), self.next_gossip_id));
                            assert(rec1.known@.no_duplicates());
                            assert(rec1.known@.to_set().subset_of(self.values@.to_set()));
                            assert forall|k: int| 0 <= k < rec1.pending@.len() implies (
                            #[trigger] rec1.pending@[k]).gossip_id <= self.next_gossip_id && (
                            #[trigger] rec1.pending@[k]).values@.to_set().subset_of(
                                self.values@.to_set(),
                            ) by {
                                let q = choose|q: int|
                                    0 <= q < pend0.len() && pend0[q] == rec1.pending@[k];
                                assert(pend0[q].gossip_id <= self.next_gossip_id);
                                assert(pend0[q].values@.to_set().subset_of(self.values@.to_set()));
                            }
                        } else {
                            assert(self.peers@[k2] == mid[k2]);
                        }
                    }
                }
            },
        }
    }
}

/// Does the batch carry an id above `g`? (An acknowledgment of `g`
/// discards every batch this predicate rejects.)
pub open spec fn batch_newer_than(g: u32) -> spec_fn(GossipBatch) -> bool {
    |b: GossipBatch| b.gossip_id > g
}

/// Is some outbound gossip of this tick addressed to `n`?
pub open spec fn out_has_dest(out: Seq<GossipOut>, n: NodeId) -> bool {
    exists|j: int| 0 <= j < out.len() && (#[trigger] out[j]).dest == n
}

/// Is some outbound gossip built so far addressed to `n`?
fn contains_dest(out: &Vec<GossipOut>, n: NodeId) -> (r: bool)
    ensures
        r == out_has_dest(out@, n),
{
    let mut j: usize = 0;
    while j < out.len()
        invariant
            j <= out@.len(),
            forall|m: int| 0 <= m < j ==> (#[trigger] out@[m]).dest != n,
        decreases out@.len() - j,
    {
        if out[j].dest == n {
            return true;
        }
        j = j + 1;
    }
    false
}

impl BroadcastState {
    /// One anti-entropy pass: each neighbor still missing something is
    /// shipped exactly the values it misses, at most one batch per
    /// neighbor, under a fresh batch id recorded as pending until
    /// acknowledged. What a neighbor is believed to have seen is left
    /// untouched: the belief grows only on receipt or acknowledgment, so
    /// the values of a batch that is never acknowledged are shipped again
    /// on the next tick — eventual delivery despite drops. Neighbors
    /// missing nothing, and peers that are no neighbors, get nothing.
    pub fn tick(&mut self) -> (out: Vec<GossipOut>)
        requires
            old(self).wf(),
            old(self).next_gossip_id + old(self).neighbors@.len() <= u32::MAX,
        ensures
            final(self).wf(),
            final(self).values@ == old(self).values@,
            final(self).neighbors@ == old(self).neighbors@,
            old(self).next_gossip_id <= final(self).next_gossip_id,
            final(self).next_gossip_id <= old(self).next_gossip_id + old(self).neighbors@.len(),
            forall|n: NodeId| #[trigger] final(self).known_of(n) == old(self).known_of(n),
            forall|n: NodeId|
                !out_has_dest(out@, n) ==> #[trigger] final(self).pending_of(n) == old(
                    self,
                ).pending_of(n),
            forall|j1: int, j2: int|
                0 <= j1 < j2 < out@.len() ==> (#[trigger] out@[j1]).dest != (
                #[trigger] out@[j2]).dest,
            forall|j: int|
                0 <= j < out@.len() ==> {
                    let o = #[trigger] out@[j];
                    &&& old(self).neighbors@.contains(o.dest)
                    &&& o.values@.to_set() == old(self).vals().difference(
                        old(self).known_of(o.dest),
                    )
                    &&& o.values@.len() > 0
                    &&& o.values@.no_duplicates()
                    &&& old(self).next_gossip_id < o.gossip_id <= final(self).next_gossip_id
                    &&& final(self).pending_of(o.dest).len() == old(self).pending_of(o.dest).len()
                        + 1
                    &&& final(self).pending_of(o.dest).take(
                        old(self).pending_of(o.dest).len() as int,
                    ) == old(self).pending_of(o.dest)
                    &&& final(self).pending_of(o.dest).last().gossip_id == o.gossip_id
                    &&& final(self).pending_of(o.dest).last().values@ == o.values@
                },
            forall|m: int|
                0 <= m < old(self).neighbors@.len() && #[trigger] old(self).known_of(
                    old(self).neighbors@[m],
                ) != old(self).vals() ==> out_has_dest(out@, old(self).neighbors@[m]),
    {
        let ghost v0 = self.values@;
        let ghost p0 = self.peers@;
        let ghost nb = self.neighbors@;
        let ghost g0 = self.next_gossip_id;
        let mut out: Vec<GossipOut> = Vec::new();
        let mut k: usize = 0;
        while k < self.neighbors.len()
            invariant
                k <= nb.len(),
                self.wf(),
                self.values@ == v0,
                self.neighbors@ == nb,
                v0.no_duplicates(),
                g0 + nb.len() <= u32::MAX,
                g0 <= self.next_gossip_id,
                self.next_gossip_id <= g0 + k,
                forall|n: NodeId| #[trigger] known_of_in(self.peers@, n) == known_of_in(p0, n),
                forall|n: NodeId|
                    !out_has_dest(out@, n) ==> #[trigger] pending_of_in(self.peers@, n)
                        == pending_of_in(p0, n),
                forall|j1: int, j2: int|
                    0 <= j1 < j2 < out@.len() ==> (#[trigger] out@[j1]).dest != (
                    #[trigger] out@[j2]).dest,
                forall|j: int|
                    0 <= j < out@.len() ==> {
                        let o = #[trigger] out@[j];
                        &&& nb.contains(o.dest)
                        &&& o.values@.to_set() == v0.to_set().difference(known_of_in(p0, o.dest))
                        &&& o.values@.len() > 0
                        &&& o.values@.no_duplicates()
                        &&& g0 < o.gossip_id <= self.next_gossip_id
                        &&& pending_of_in(self.peers@, o.dest).len() == pending_of_in(
                            p0,
                            o.dest,
                        ).len() + 1
                        &&& pending_of_in(self.peers@, o.dest).take(
                            pending_of_in(p0, o.dest).len() as int,
                        ) == pending_of_in(p0, o.dest)
                        &&& pending_of_in(self.peers@, o.dest).last().gossip_id == o.gossip_id
                        &&& pending_of_in(self.peers@, o.dest).last().values@ == o.values@
                    },
                forall|m: int|
                    0 <= m < k && #[trigger] known_of_in(p0, nb[m]) != v0.to_set()
                        ==> out_has_dest(out@, nb[m]),
            decreases nb.len() - k,
        {
            let n = self.neighbors[k];
            if contains_dest(&out, n) {
                // a duplicate neighbor entry: this neighbor was already
                // served within this tick
                k = k + 1;
                continue;
            }
            let ghost peers_entry = self.peers@;
            let ghost out_before = out@;
            let i = ensure_peer(&mut self.peers, n);
            let ghost mid = self.peers@;
            proof {
                assert(known_of_in(mid, n) == known_of_in(peers_entry, n));
                assert(mid[i as int].known@.to_set() == known_of_in(mid, n));
                if !has_peer_in(peers_entry, n) {
                    assert(mid.take(peers_entry.len() as int) == peers_entry);
                    assert(forall|q: int|
                        0 <= q < peers_entry.len() ==> mid[q] == #[trigger] peers_entry[q]) by {
                        assert(forall|q: int|
                            0 <= q < peers_entry.len() ==> mid.take(peers_entry.len() as int)[q]
                                == #[trigger] mid[q]);
                    }
                }
                assert forall|q: int| 0 <= q < mid.len() implies (#[trigger] mid[q]).wf(
                    v0.to_set(),
                    self.next_gossip_id,
                ) by {
                    if q < peers_entry.len() {
                        assert(mid[q] == peers_entry[q]);
                        assert(peers_entry[q].wf(v0.to_set(), self.next_gossip_id));
                    } else {
                        assert(mid[q].known@ == Seq::<u32>::empty());
                        assert(mid[q].known@.to_set() =~= Set::<u32>::empty());
                        assert(mid[q].pending@ == Seq::<GossipBatch>::empty());
                    }
                }
                assert(self.wf());
                assert forall|n2: NodeId| #[trigger] known_of_in(mid, n2) == known_of_in(
                    p0,
                    n2,
                ) by {
                    assert(known_of_in(mid, n2) == known_of_in(peers_entry, n2));
                }
                assert forall|n2: NodeId| !out_has_dest(out@, n2) implies
                #[trigger] pending_of_in(mid, n2) == pending_of_in(p0, n2) by {
                    assert(pending_of_in(mid, n2) == pending_of_in(peers_entry, n2));
                }
            }
            let diff = diff_values(&self.values, &self.peers[i].known);
            if diff.len() > 0 {
                let ghost known_n = known_of_in(mid, n);
                proof {
                    assert(known_of_in(p0, n) == known_n);
                    assert(diff@.to_set() == v0.to_set().difference(known_of_in(p0, n)));
                }
                let gid = self.next_gossip_id + 1;
                self.next_gossip_id = gid;
                proof {
                    // records well-formed under the previous bound stay so
                    assert forall|q: int| 0 <= q < mid.len() implies (#[trigger] mid[q]).wf(
                        v0.to_set(),
                        gid,
                    ) by {
                        lemma_record_wf_weaken(
                            mid[q],
                            v0.to_set(),
                            v0.to_set(),
                            (gid - 1) as u32,
                            gid,
                        );
                    }
                }
                let rec = self.peers.remove(i);
                let PeerRecord { id: rid, known: rknown, pending: mut rpending } = rec;
                let ghost pending_before = rpending@;
                let batch_values = clone_values(&diff);
                rpending.push(GossipBatch { gossip_id: gid, values: batch_values });
                let rec2 = PeerRecord { id: rid, known: rknown, pending: rpending };
                self.peers.insert(i, rec2);
                proof {
                    let rec1 = self.peers@[i as int];
                    assert(self.peers@ =~= mid.update(i as int, rec1));
                    assert(forall|q: int|
                        0 <= q < mid.len() ==> (#[trigger] self.peers@[q]).id == mid[q].id);
                    lemma_peer_frame(mid, self.peers@, i as int);
                    lemma_peer_at_in(self.peers@, n, i as int);
                    assert(rec1.known@ == mid[i as int].known@);
                    assert forall|n2: NodeId| #[trigger] known_of_in(self.peers@, n2)
                        == known_of_in(p0, n2) by {
                        if n2 == n {
                            assert(known_of_in(self.peers@, n) == rec1.known@.to_set());
                            assert(known_of_in(mid, n) == mid[i as int].known@.to_set());
                        }
                    }
                    assert(pending_of_in(self.peers@, n) == pending_before.push(
                        rec1.pending@.last(),
                    )) by {
                        assert(rec1.pending@ =~= pending_before.push(rec1.pending@.last()));
                    }
                    assert(pending_of_in(mid, n) == pending_before);
                    assert(pending_of_in(p0, n) == pending_before);
                    assert(self.wf()) by {
                        assert forall|q: int| 0 <= q < self.peers@.len() implies (
                        #[trigger] self.peers@[q]).wf(v0.to_set(), gid) by {
                            if q == i as int {
                                assert(mid[q].wf(v0.to_set(), gid));
                                assert(batch_sorted(rec1.pending@)) by {
                                    assert(forall|a: int|
                                        0 <= a < pending_before.len()
                                            ==> (#[trigger] pending_before[a]).gossip_id <= gid
                                            - 1);
                                    assert(forall|a: int|
                                        0 <= a < pending_before.len() ==> rec1.pending@[a]
                                            == #[trigger] pending_before[a]);
                                    assert(rec1.pending@.last().gossip_id == gid);
                                }
                                assert forall|a: int| 0 <= a < rec1.pending@.len() implies (
                                #[trigger] rec1.pending@[a]).values@.to_set().subset_of(
                                    v0.to_set(),
                                ) by {
                                    if a < pending_before.len() {
                                        assert(rec1.pending@[a] == pending_before[a]);
                                        assert(pending_before[a].values@.to_set().subset_of(
                                            v0.to_set(),
                                        ));
                                    } else {
                                        assert(rec1.pending@[a].values@ == diff@);
                                    }
                                }
                            } else {
                                assert(self.peers@[q] == mid[q]);
                            }
                        }
                    }
                }
                out.push(GossipOut { dest: n, gossip_id: gid, values: diff });
                proof {
                    assert(forall|j: int|
                        0 <= j < out_before.len() ==> #[trigger] out@[j] == out_before[j]);
                    assert(out@[out@.len() - 1].dest == n);
                    assert forall|j1: int, j2: int| 0 <= j1 < j2 < out@.len() implies (
                    #[trigger] out@[j1]).dest != (#[trigger] out@[j2]).dest by {
                        if j2 == out@.len() - 1 {
                            assert(out@[j1] == out_before[j1]);
                            assert(!out_has_dest(out_before, n));
                            assert(out_before[j1].dest != n);
                        }
                    }
                    assert forall|n2: NodeId| !out_has_dest(out@, n2) implies
                    #[trigger] pending_of_in(self.peers@, n2) == pending_of_in(p0, n2) by {
                        assert(n2 != n);
                        assert(!out_has_dest(out_before, n2)) by {
                            if out_has_dest(out_before, n2) {
                                let j = choose|j: int|
                                    0 <= j < out_before.len() && (#[trigger] out_before[j]).dest
                                        == n2;
                                assert(out@[j].dest == n2);
                            }
                        }
                        assert(pending_of_in(self.peers@, n2) == pending_of_in(mid, n2));
                    }
                    assert forall|m: int|
                        0 <= m < k + 1 && #[trigger] known_of_in(p0, nb[m]) != v0.to_set() implies
                    out_has_dest(out@, nb[m]) by {
                        if m < k {
                            assert(out_has_dest(out_before, nb[m]));
                            let j = choose|j: int|
                                0 <= j < out_before.len() && (#[trigger] out_before[j]).dest
                                    == nb[m];
                            assert(out@[j].dest == nb[m]);
                        } else {
                            assert(out@[out@.len() - 1].dest == n);
                        }
                    }
                    let ghost o_new = out@.last();
                    assert(o_new.dest == n && o_new.gossip_id == gid && o_new.values@.to_set()
                        == v0.to_set().difference(known_of_in(p0, n)));
                    assert forall|j: int| 0 <= j < out@.len() implies {
                        let o = #[trigger] out@[j];
                        &&& nb.contains(o.dest)
                        &&& o.values@.to_set() == v0.to_set().difference(known_of_in(p0, o.dest))
                        &&& o.values@.len() > 0
                        &&& o.values@.no_duplicates()
                        &&& g0 < o.gossip_id <= self.next_gossip_id
                        &&& pending_of_in(self.peers@, o.dest).len() == pending_of_in(
                            p0,
                            o.dest,
                        ).len() + 1
                        &&& pending_of_in(self.peers@, o.dest).take(
                            pending_of_in(p0, o.dest).len() as int,
                        ) == pending_of_in(p0, o.dest)
                        &&& pending_of_in(self.peers@, o.dest).last().gossip_id == o.gossip_id
                        &&& pending_of_in(self.peers@, o.dest).last().values@ == o.values@
                    } by {
                        let o = out@[j];
                        if j < out@.len() - 1 {
                            assert(o == out_before[j]);
                            assert(o.dest != n) by {
                                assert(!out_has_dest(out_before, n));
                            }
                            assert(pending_of_in(self.peers@, o.dest) == pending_of_in(
                                mid,
                                o.dest,
                            ));
                            assert(pending_of_in(mid, o.dest) == pending_of_in(
                                peers_entry,
                                o.dest,
                            ));
                        } else {
                            assert(o == o_new);
                            assert(nb[k as int] == n);
                            assert(pending_of_in(self.peers@, n).take(
                                pending_of_in(p0, n).len() as int,
                            ) =~= pending_of_in(p0, n));
                        }
                    }
                }
            } else {
                proof {
                    assert(diff@.to_set() =~= Set::<u32>::empty());
                    assert(known_of_in(mid, n) == v0.to_set()) by {
                        assert(v0.to_set().difference(known_of_in(mid, n)) =~= Set::<u32>::empty());
                        assert(known_of_in(mid, n).subset_of(v0.to_set())) by {
                            assert(mid[i as int].wf(v0.to_set(), self.next_gossip_id));
                        }
                        assert forall|y: u32| v0.to_set().contains(y) implies known_of_in(
                            mid,
                            n,
                        ).contains(y) by {
                            if !known_of_in(mid, n).contains(y) {
                                assert(v0.to_set().difference(known_of_in(mid, n)).contains(y));
                            }
                        }
                        assert(known_of_in(mid, n) =~= v0.to_set());
                    }
                    assert forall|m: int|
                        0 <= m < k + 1 && #[trigger] known_of_in(p0, nb[m]) != v0.to_set() implies
                    out_has_dest(out@, nb[m]) by {
                        if m == k {
                            assert(known_of_in(p0, n) == known_of_in(mid, n));
                        }
                    }
                }
            }
            k = k + 1;
        }
        out
    }

    /// The gossip neighbors a bounded fan-out gives this node: the `k`
    /// identities that follow it in the sorted full peer list, wrapping at
    /// its end.
    pub fn ring_neighbors(peers: &Vec<NodeId>, me: NodeId, k: usize) -> (r: Vec<NodeId>)
        requires
            peers@.no_duplicates(),
            peers@.contains(me),
        ensures
            r@.len() == k,
            forall|j: int|
                0 <= j < k ==> #[trigger] r@[j] == peers@.sort_by(node_le_fn())[(peers@.sort_by(
                    node_le_fn(),
                ).index_of(me) + 1 + j) % (peers@.len() as int)],
    {
        let sv = sort_node_ids(peers);
        proof {
            broadcast use vstd::seq_lib::group_to_multiset_ensures;

            lemma_node_le_total_ordering();
            peers@.lemma_sort_by_ensures(node_le_fn());
            lemma_sorted_unique(sv@, peers@.sort_by(node_le_fn()));
            assert(sv@ == peers@.sort_by(node_le_fn()));
            assert(sv@.len() == peers@.len()) by {
                assert(sv@.len() == sv@.to_multiset().len());
                assert(peers@.len() == peers@.to_multiset().len());
            }
            assert(sv@.contains(me)) by {
                assert(peers@.to_multiset().count(me) > 0);
                assert(sv@.to_multiset().count(me) > 0);
            }
            assert(sv@.no_duplicates()) by {
                peers@.lemma_multiset_has_no_duplicates();
                assert(forall|x: NodeId|
                    sv@.to_multiset().contains(x) ==> sv@.to_multiset().count(x) == 1);
                sv@.lemma_multiset_has_no_duplicates_conv();
            }
        }
        let ghost start = sv@.index_of(me);
        let len = sv.len();
        let mut pos: usize = 0;
        let mut found = false;
        let mut q: usize = 0;
        while q < len
            invariant
                q <= len,
                len == sv@.len(),
                sv@.contains(me),
                sv@.no_duplicates(),
                start == sv@.index_of(me),
                !found ==> forall|m: int| 0 <= m < q ==> sv@[m] != me,
                found ==> pos < len && sv@[pos as int] == me,
            decreases len - q,
        {
            if sv[q] == me {
                if !found {
                    pos = q;
                    found = true;
                }
            }
            q = q + 1;
        }
        proof {
            let w = choose|w: int| 0 <= w < sv@.len() && sv@[w] == me;
            assert(sv@[w] == me);
            assert(found);
            assert(0 <= start < sv@.len() && sv@[start] == me);
            assert(pos as int == start) by {
                if pos as int != start {
                    assert(sv@[pos as int] == sv@[start]);
                }
            }
        }
        let mut r: Vec<NodeId> = Vec::new();
        let mut j: usize = 0;
        while j < k
            invariant
                j <= k,
                len == sv@.len(),
                len > 0,
                pos < len,
                start == sv@.index_of(me),
                0 <= start < len,
                pos as int == (start + j) % (len as int) || (j == 0 && pos as int == start),
                r@.len() == j,
                forall|m: int|
                    0 <= m < j ==> #[trigger] r@[m] == sv@[(start + 1 + m) % (len as int)],
            decreases k - j,
        {
            let next: usize = if pos + 1 == len {
                0
            } else {
                pos + 1
            };
            proof {
                let l = len as int;
                let x = start + j;
                assert(pos as int == x % l || (j == 0 && pos as int == start));
                if j == 0 {
                    vstd::arithmetic::div_mod::lemma_small_mod(start as nat, l as nat);
                    assert(x % l == start);
                }
                assert(pos as int == x % l);
                if l == 1 {
                    assert(pos == 0 && next == 0);
                    assert((x + 1) % l == 0) by (nonlinear_arith)
                        requires l == 1;
                } else {
                    vstd::arithmetic::div_mod::lemma_add_mod_noop(x, 1, l);
                    vstd::arithmetic::div_mod::lemma_small_mod(1nat, l as nat);
                    if pos + 1 < len {
                        vstd::arithmetic::div_mod::lemma_small_mod((pos + 1) as nat, l as nat);
                        assert((x + 1) % l == pos + 1);
                    } else {
                        vstd::arithmetic::div_mod::lemma_mod_self_0(l);
                        assert((x + 1) % l == 0);
                    }
                }
                assert(next as int == (x + 1) % l);
                vstd::arithmetic::div_mod::lemma_mod_bound(x + 1, l);
            }
            let id = sv[next];
            r.push(id);
            pos = next;
            j = j + 1;
            proof {
                assert(forall|m: int|
                    0 <= m < j - 1 ==> #[trigger] r@[m] == sv@[(start + 1 + m) % (len as int)]);
                assert(r@[j - 1] == sv@[(start + j) % (len as int)]);
            }
        }
        r
    }
}

/// The first position at which `x` joins `r` without disturbing its order.
fn insertion_point(r: &Vec<NodeId>, x: NodeId) -> (p: usize)
    requires
        vstd::relations::sorted_by(r@, node_le_fn()),
    ensures
        p <= r@.len(),
        forall|q: int| 0 <= q < p ==> node_le(#[trigger] r@[q], x),
        forall|q: int| p <= q < r@.len() ==> node_le(x, #[trigger] r@[q]),
{
    let mut p: usize = 0;
    while p < r.len()
        invariant
            p <= r@.len(),
            vstd::relations::sorted_by(r@, node_le_fn()),
            forall|q: int| 0 <= q < p ==> node_le(#[trigger] r@[q], x),
        decreases r@.len() - p,
    {
        let rp = r[p];
        if !rp.le(x) {
            proof {
                assert forall|q: int| p <= q < r@.len() implies node_le(x, #[trigger] r@[q]) by {
                    lemma_node_le_props(r@[p as int], x, x);
                    assert(node_le(x, r@[p as int]));
                    if q > p {
                        assert(node_le_fn()(r@[p as int], r@[q]));
                        lemma_node_le_props(x, r@[p as int], r@[q]);
                    }
                }
            }
            return p;
        }
        p = p + 1;
    }
    p
}

/// Sorts identities by the identity order; the result holds exactly the
/// same identities.
pub fn sort_node_ids(ids: &Vec<NodeId>) -> (r: Vec<NodeId>)
    ensures
        vstd::relations::sorted_by(r@, node_le_fn()),
        r@.to_multiset() == ids@.to_multiset(),
{
    let mut r: Vec<NodeId> = Vec::new();
    let mut i: usize = 0;
    proof {
        assert(ids@.take(0) =~= Seq::<NodeId>::empty());
        assert(r@.to_multiset() == ids@.take(0).to_multiset());
    }
    while i < ids.len()
        invariant
            i <= ids@.len(),
            vstd::relations::sorted_by(r@, node_le_fn()),
            r@.to_multiset() == ids@.take(i as int).to_multiset(),
        decreases ids@.len() - i,
    {
        let x = ids[i];
        let p = insertion_point(&r, x);
        let ghost r0 = r@;
        r.insert(p, x);
        proof {
            broadcast use vstd::seq_lib::group_to_multiset_ensures;
            broadcast use vstd::multiset::group_multiset_axioms;

            assert(r@.len() == r0.len() + 1);
            assert(forall|q: int| 0 <= q < p ==> #[trigger] r@[q] == r0[q]);
            assert(r@[p as int] == x);
            assert(forall|q: int| p < q < r@.len() ==> #[trigger] r@[q] == r0[q - 1]);
            assert(vstd::relations::sorted_by(r@, node_le_fn())) by {
                assert forall|a: int, b: int| 0 <= a < b < r@.len() implies #[trigger] node_le_fn()(
                    r@[a],
                    r@[b],
                ) by {
                    if b < p {
                        assert(node_le_fn()(r0[a], r0[b]));
                    } else if b == p {
                        assert(node_le(r0[a], x));
                    } else if a < p {
                        assert(node_le(r0[b - 1], x) || node_le(x, r0[b - 1]));
                        if a < b - 1 {
                            assert(node_le_fn()(r0[a], r0[b - 1]));
                        }
                        assert(node_le(x, r0[b - 1]));
                        if a < p {
                            assert(node_le(r0[a], x));
                            lemma_node_le_props(r0[a], x, r0[b - 1]);
                        }
                    } else if a == p {
                        assert(node_le(x, r0[b - 1]));
                    } else {
                        assert(node_le_fn()(r0[a - 1], r0[b - 1]));
                    }
                }
            }
            assert(r@.remove(p as int) =~= r0);
            assert(r@.remove(p as int).to_multiset() =~= r@.to_multiset().remove(r@[p as int]));
            assert(r0.to_multiset() == r@.to_multiset().remove(x));
            assert(r@.contains(x)) by {
                assert(r@[p as int] == x);
            }
            assert(r@.to_multiset().count(x) > 0);
            assert(r@.to_multiset() =~= r0.to_multiset().insert(x)) by {
                assert forall|y: NodeId| r@.to_multiset().count(y) == r0.to_multiset().insert(
                    x,
                ).count(y) by {
                    if y == x {
                        assert(r0.to_multiset().count(x) == r@.to_multiset().count(x) - 1);
                    } else {
                        assert(r0.to_multiset().count(y) == r@.to_multiset().count(y));
                    }
                }
            }
            assert(ids@.take(i + 1) =~= ids@.take(i as int).push(x));
            assert(ids@.take(i + 1).to_multiset() =~= ids@.take(i as int).to_multiset().insert(x));
        }
        i = i + 1;
    }
    proof {
        assert(ids@.take(ids@.len() as int) =~= ids@);
    }
    r
}

/// Two lists of identities in sorted order holding the same identities are
/// the same list.
pub proof fn lemma_sorted_unique(a: Seq<NodeId>, b: Seq<NodeId>)
    requires
        vstd::relations::sorted_by(a, node_le_fn()),
        vstd::relations::sorted_by(b, node_le_fn()),
        a.to_multiset() == b.to_multiset(),
    ensures
        a == b,
    decreases a.len(),
{
    broadcast use vstd::seq_lib::group_to_multiset_ensures;

    assert(a.len() == a.to_multiset().len());
    assert(b.len() == b.to_multiset().len());
    if a.len() == 0 {
        assert(a =~= b);
    } else {
        let la = a.last();
        let lb = b.last();
        assert(a.contains(la)) by {
            assert(a[a.len() - 1] == la);
        }
        assert(b.contains(lb)) by {
            assert(b[b.len() - 1] == lb);
        }
        assert(b.contains(la)) by {
            assert(a.to_multiset().count(la) > 0);
            assert(b.to_multiset().count(la) > 0);
        }
        assert(a.contains(lb)) by {
            assert(b.to_multiset().count(lb) > 0);
            assert(a.to_multiset().count(lb) > 0);
        }
        assert(node_le(la, lb)) by {
            let qb = choose|q: int| 0 <= q < b.len() && b[q] == la;
            if qb < b.len() - 1 {
                assert(node_le_fn()(b[qb], b[b.len() - 1]));
            } else {
                lemma_node_le_props(la, lb, lb);
            }
        }
        assert(node_le(lb, la)) by {
            let qa = choose|q: int| 0 <= q < a.len() && a[q] == lb;
            if qa < a.len() - 1 {
                assert(node_le_fn()(a[qa], a[a.len() - 1]));
            } else {
                lemma_node_le_props(lb, la, la);
            }
        }
        lemma_node_le_props(la, lb, lb);
        assert(la == lb);
        assert(a.remove(a.len() - 1) =~= a.drop_last());
        assert(b.remove(b.len() - 1) =~= b.drop_last());
        assert(a.remove(a.len() - 1).to_multiset() =~= a.to_multiset().remove(la));
        assert(b.remove(b.len() - 1).to_multiset() =~= b.to_multiset().remove(lb));
        assert(a.drop_last().to_multiset() == b.drop_last().to_multiset());
        assert(vstd::relations::sorted_by(a.drop_last(), node_le_fn())) by {
            assert forall|i: int, j: int| 0 <= i < j < a.drop_last().len() implies
            #[trigger] node_le_fn()(a.drop_last()[i], a.drop_last()[j]) by {
                assert(node_le_fn()(a[i], a[j]));
            }
        }
        assert(vstd::relations::sorted_by(b.drop_last(), node_le_fn())) by {
            assert forall|i: int, j: int| 0 <= i < j < b.drop_last().len() implies
            #[trigger] node_le_fn()(b.drop_last()[i], b.drop_last()[j]) by {
                assert(node_le_fn()(b[i], b[j]));
            }
        }
        lemma_sorted_unique(a.drop_last(), b.drop_last());
        assert forall|i: int| 0 <= i < a.len() implies a[i] == b[i] by {
            if i < a.len() - 1 {
                assert(a.drop_last()[i] == a[i]);
                assert(b.drop_last()[i] == b[i]);
            } else {
                assert(a[i] == la && b[i] == lb);
            }
        }
        assert(a =~= b);
    }
}

impl BroadcastState {
    /// How many shipped batches for `n` still await acknowledgment.
    pub fn pending_len(&self, n: NodeId) -> (r: usize)
        requires
            self.wf(),
        ensures
            r == self.pending_of(n).len(),
    {
        match find_peer(&self.peers, n) {
            Some(i) => {
                proof {
                    lemma_peer_at_in(self.peers@, n, i as int);
                }
                self.peers[i].pending.len()
            },
            None => 0,
        }
    }

    /// A snapshot of the values `n` is believed to have seen.
    pub fn known_values(&self, n: NodeId) -> (r: Vec<u32>)
        requires
            self.wf(),
        ensures
            r@.to_set() == self.known_of(n),
    {
        match find_peer(&self.peers, n) {
            Some(i) => {
                proof {
                    lemma_peer_at_in(self.peers@, n, i as int);
                }
                clone_values(&self.peers[i].known)
            },
            None => {
                let r: Vec<u32> = Vec::new();
                proof {
                    assert(r@.to_set() =~= Set::<u32>::empty());
                }
                r
            },
        }
    }
}

/// Every belief stays within the node's own values: for each peer `n` of a
/// well-formed state, `known_of(n)` is a subset of the value set.
pub proof fn lemma_known_within_values(s: BroadcastState, n: NodeId)
    requires
        s.wf(),
    ensures
        s.known_of(n).subset_of(s.vals()),
{
    if has_peer_in(s.peers@, n) {
        let i = peer_at_in(s.peers@, n);
        assert(0 <= i < s.peers@.len() && s.peers@[i].id == n);
        assert(s.peers@[i].wf(s.values@.to_set(), s.next_gossip_id));
    }
}

/// One delivered anti-entropy batch closes the gap it was computed for: if
/// the receiver already held everything the sender believed it knew, then
/// once the batch — the sender's values minus that belief — is merged, the
/// receiver holds every value the sender held.
pub proof fn lemma_gossip_delivery_propagates(
    sender_values: Set<u32>,
    sender_known: Set<u32>,
    receiver_values: Set<u32>,
)
    requires
        sender_known.subset_of(receiver_values),
    ensures
        sender_values.subset_of(receiver_values.union(sender_values.difference(sender_known))),
{
    assert forall|y: u32| sender_values.contains(y) implies receiver_values.union(
        sender_values.difference(sender_known),
    ).contains(y) by {
        if !sender_values.difference(sender_known).contains(y) {
            assert(sender_known.contains(y));
        }
    }
}

/// A tick followed by the delivery of its batch propagates the sender's
/// whole value set: if the receiver held everything the sender believed of
/// it, and the batch a tick addressed to it is merged into the receiver's
/// values, the receiver now holds every value the sender held at the tick.
pub proof fn lemma_tick_delivery_propagates(
    sender: BroadcastState,
    receiver_before: BroadcastState,
    receiver_after: BroadcastState,
    batch: Seq<u32>,
    dest: NodeId,
)
    requires
        batch.to_set() == sender.vals().difference(sender.known_of(dest)),
        sender.known_of(dest).subset_of(receiver_before.vals()),
        receiver_after.vals() == receiver_before.vals().union(batch.to_set()),
    ensures
        sender.vals().subset_of(receiver_after.vals()),
{
    lemma_gossip_delivery_propagates(
        sender.vals(),
        sender.known_of(dest),
        receiver_before.vals(),
    );
}

/// Values travel along any chain of anti-entropy deliveries, so a set
/// broadcast anywhere reaches every node a delivery path leads to. Link `i`
/// of the chain is one tick and its later delivery: `sent[i]` is the
/// sender's value set at the tick, `known[i]` its belief about the
/// receiver (already held by the receiver, as every delivered batch
/// guarantees), and the receiver's set grows from `before[i]` to
/// `after[i]` by the shipped gap. Between links the forwarding node's set
/// only grows, as every transition guarantees. The last receiver then
/// holds everything the first sender held at the start.
pub proof fn lemma_chain_delivery_propagates(
    sent: Seq<Set<u32>>,
    known: Seq<Set<u32>>,
    before: Seq<Set<u32>>,
    after: Seq<Set<u32>>,
)
    requires
        sent.len() >= 1,
        known.len() == sent.len(),
        before.len() == sent.len(),
        after.len() == sent.len(),
        forall|i: int| 0 <= i < sent.len() ==> (#[trigger] known[i]).subset_of(before[i]),
        forall|i: int|
            0 <= i < sent.len() ==> #[trigger] after[i] == before[i].union(
                sent[i].difference(known[i]),
            ),
        forall|i: int| 0 <= i < sent.len() - 1 ==> (#[trigger] after[i]).subset_of(sent[i + 1]),
    ensures
        sent[0].subset_of(after[sent.len() - 1]),
    decreases sent.len(),
{
    lemma_gossip_delivery_propagates(sent[0], known[0], before[0]);
    if sent.len() > 1 {
        let sent2 = sent.drop_first();
        let known2 = known.drop_first();
        let before2 = before.drop_first();
        let after2 = after.drop_first();
        assert(forall|i: int| 0 <= i < sent2.len() ==> #[trigger] sent2[i] == sent[i + 1]);
        assert(forall|i: int| 0 <= i < sent2.len() ==> #[trigger] known2[i] == known[i + 1]);
        assert(forall|i: int| 0 <= i < sent2.len() ==> #[trigger] before2[i] == before[i + 1]);
        assert(forall|i: int| 0 <= i < sent2.len() ==> #[trigger] after2[i] == after[i + 1]);
        lemma_chain_delivery_propagates(sent2, known2, before2, after2);
        assert(sent[0].subset_of(after[0]));
        assert(after[0].subset_of(sent[1]));
        assert(sent2[0].subset_of(after2[sent2.len() - 1]));
        assert(after2[sent2.len() - 1] == after[sent.len() - 1]);
    }
}

} // verus!
