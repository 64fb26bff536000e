//! A replica: admits signed packets (signature, dedup, sender binding, schema,
//! size cap, per-sender sequence chain with hold-back, delta binding), merges
//! admitted deltas deterministically, and keeps the bookkeeping that makes
//! replays no-ops and equivocation visible.
//!
//! Receiving a packet alternates decisions with work done outside: resolving
//! the sender's key, encoding the body, decoding the delta. The decisions live
//! here as steps (`screen`, `commit`, `take_parked`); the caller runs the loop.

use vstd::prelude::*;
use vstd::utf8::encode_utf8;
use crate::error::AgentZkError;
use crate::graph::GraphState;
use crate::hash::{B3, b3, blake3_digest, hex_encode, hex_lower};
use crate::order::str_eq;
use crate::graph::GraphDelta;
use crate::merge::{MergeCtx, MergeEngine, MergePolicy, MergeReport, apply_delta, apply_patches, edges_new, patches_applied};
use crate::packet::{DeltaRef, DeltaRefView, PckpPacket, PacketView, content_hash_of, copy_bytes, ed25519_accepts, signing_input};

verus! {

broadcast use vstd::array::group_array_axioms;

pub const MAX_DELTA_LEN: usize = 128 * 1024;

pub const MAX_PENDING_PER_SRC: usize = 1024;

/// How an accepted packet was handled.
#[derive(Clone, Copy, Debug, PartialEq, Eq)]
pub enum Ack {
    Merged,
    /// An idempotent no-op: state, log and counters untouched.
    Duplicate,
    /// A future sequence number held back until its predecessors arrive.
    Parked,
}

/// The 8-byte node id bound to a sender: the first 8 bytes of BLAKE3 of its name.
pub open spec fn nid_of(src: Seq<char>) -> Seq<u8> {
    blake3_digest(encode_utf8(src)).subrange(0, 8)
}

pub fn nid_for(src: &str) -> (r: [u8; 8])
    ensures
        r@ == nid_of(src@),
{
    let h = b3(src.as_bytes());
    let r = [h[0], h[1], h[2], h[3], h[4], h[5], h[6], h[7]];
    assert(r@ =~= h@.subrange(0, 8));
    r
}

/// Whether two digests are the same.
pub fn digest_eq(a: &B3, b: &B3) -> (r: bool)
    ensures
        r == (*a == *b),
{
    let mut i: usize = 0;
    while i < 32
        invariant
            i <= 32,
            forall|j: int| 0 <= j < i ==> a[j] == b[j],
        decreases 32 - i,
    {
        if a[i] != b[i] {
            return false;
        }
        i = i + 1;
    }
    assert(*a =~= *b);
    true
}

/// Whether two node ids are the same.
fn nid_eq(a: &[u8; 8], b: &[u8; 8]) -> (r: bool)
    ensures
        r == (a@ == b@),
{
    let mut i: usize = 0;
    while i < 8
        invariant
            i <= 8,
            forall|j: int| 0 <= j < i ==> a@[j] == b@[j],
        decreases 8 - i,
    {
        if a[i] != b[i] {
            return false;
        }
        i = i + 1;
    }
    assert(a@ =~= b@);
    true
}

/// An accepted packet of a sender's chain, kept as evidence.
#[derive(Debug)]
pub struct SeqRecord {
    pub seq: u64,
    pub hash: B3,
    pub packet: PckpPacket,
}

/// A sender's chain: its last accepted sequence number and content hash, and
/// every accepted packet by sequence number.
#[derive(Debug)]
pub struct ChainState {
    pub src: String,
    pub last_seq: u64,
    pub last_hash: B3,
    pub by_seq: Vec<SeqRecord>,
}

/// A future packet held back until its predecessors arrive.
#[derive(Debug)]
pub struct Parked {
    pub src: String,
    pub seq: u64,
    pub packet: PckpPacket,
    pub detached: Option<Vec<u8>>,
}

/// What `screen` lets through: the content hash and the delta bytes to decode.
#[derive(Debug)]
pub enum Admission {
    Duplicate,
    Parked,
    Deliver { content_hash: B3, delta_bytes: Vec<u8> },
}

/// A replica's state.
#[derive(Debug)]
pub struct AgentZkNode {
    pub id: String,
    pub schema_hash: B3,
    pub policy_hash: B3,
    pub graph: GraphState,
    pub merge: MergeEngine,
    pub wal: Vec<PckpPacket>,
    pub seen: Vec<B3>,
    pub chains: Vec<ChainState>,
    pub pending: Vec<Parked>,
    /// Both packets of every (sender, sequence) pair signed twice with different content.
    pub equivocation_evidence: Vec<(PckpPacket, PckpPacket)>,
}

/// The index of the last chain of `src`, or -1.
pub open spec fn chain_index(cs: Seq<ChainState>, src: Seq<char>) -> int
    decreases cs.len(),
{
    if cs.len() == 0 {
        -1
    } else if cs.last().src@ == src {
        cs.len() - 1
    } else {
        chain_index(cs.drop_last(), src)
    }
}

/// The index of the last record of `seq`, or -1.
pub open spec fn record_index(rs: Seq<SeqRecord>, seq: u64) -> int
    decreases rs.len(),
{
    if rs.len() == 0 {
        -1
    } else if rs.last().seq == seq {
        rs.len() - 1
    } else {
        record_index(rs.drop_last(), seq)
    }
}

/// The index of the last held-back packet of `src` with `seq`, or -1.
pub open spec fn parked_index(ps: Seq<Parked>, src: Seq<char>, seq: u64) -> int
    decreases ps.len(),
{
    if ps.len() == 0 {
        -1
    } else if ps.last().src@ == src && ps.last().seq == seq {
        ps.len() - 1
    } else {
        parked_index(ps.drop_last(), src, seq)
    }
}

/// How many held-back packets `src` has.
pub open spec fn parked_count(ps: Seq<Parked>, src: Seq<char>) -> nat
    decreases ps.len(),
{
    if ps.len() == 0 {
        0
    } else {
        parked_count(ps.drop_last(), src) + if ps.last().src@ == src {
            1nat
        } else {
            0nat
        }
    }
}

proof fn lemma_chain_index(cs: Seq<ChainState>, src: Seq<char>)
    ensures
        -1 <= chain_index(cs, src) < cs.len(),
        chain_index(cs, src) >= 0 ==> cs[chain_index(cs, src)].src@ == src,
        forall|j: int| chain_index(cs, src) < j < cs.len() ==> (#[trigger] cs[j]).src@ != src,
    decreases cs.len(),
{
    if cs.len() > 0 {
        lemma_chain_index(cs.drop_last(), src);
        assert forall|j: int| chain_index(cs, src) < j < cs.len() implies (#[trigger] cs[j]).src@ != src by {
            if j < cs.len() - 1 {
                assert(cs[j] == cs.drop_last()[j]);
            }
        }
    }
}

proof fn lemma_record_index(rs: Seq<SeqRecord>, seq: u64)
    ensures
        -1 <= record_index(rs, seq) < rs.len(),
        record_index(rs, seq) >= 0 ==> rs[record_index(rs, seq)].seq == seq,
        forall|j: int| record_index(rs, seq) < j < rs.len() ==> (#[trigger] rs[j]).seq != seq,
    decreases rs.len(),
{
    if rs.len() > 0 {
        lemma_record_index(rs.drop_last(), seq);
        assert forall|j: int| record_index(rs, seq) < j < rs.len() implies (#[trigger] rs[j]).seq != seq by {
            if j < rs.len() - 1 {
                assert(rs[j] == rs.drop_last()[j]);
            }
        }
    }
}

/// `parked_index` finds the last held-back entry of a sender and sequence number, or none.
pub proof fn lemma_parked_index(ps: Seq<Parked>, src: Seq<char>, seq: u64)
    ensures
        -1 <= parked_index(ps, src, seq) < ps.len(),
        parked_index(ps, src, seq) >= 0 ==> ps[parked_index(ps, src, seq)].src@ == src
            && ps[parked_index(ps, src, seq)].seq == seq,
        forall|j: int|
            parked_index(ps, src, seq) < j < ps.len() ==> !((#[trigger] ps[j]).src@ == src && ps[j].seq
                == seq),
    decreases ps.len(),
{
    if ps.len() > 0 {
        lemma_parked_index(ps.drop_last(), src, seq);
        assert forall|j: int| parked_index(ps, src, seq) < j < ps.len() implies !((#[trigger] ps[j]).src@
            == src && ps[j].seq == seq) by {
            if j < ps.len() - 1 {
                assert(ps[j] == ps.drop_last()[j]);
            }
        }
    }
}

proof fn lemma_chain_index_update(cs: Seq<ChainState>, c: int, x: ChainState, s2: Seq<char>)
    requires
        0 <= c < cs.len(),
        x.src@ == cs[c].src@,
    ensures
        chain_index(cs.update(c, x), s2) == chain_index(cs, s2),
    decreases cs.len(),
{
    if c < cs.len() - 1 {
        assert(cs.update(c, x).drop_last() =~= cs.drop_last().update(c, x));
        lemma_chain_index_update(cs.drop_last(), c, x, s2);
    } else {
        assert(cs.update(c, x).drop_last() =~= cs.drop_last());
    }
}

proof fn lemma_record_index_update(rs: Seq<SeqRecord>, c: int, x: SeqRecord, q: u64)
    requires
        0 <= c < rs.len(),
        x.seq == rs[c].seq,
    ensures
        record_index(rs.update(c, x), q) == record_index(rs, q),
    decreases rs.len(),
{
    if c < rs.len() - 1 {
        assert(rs.update(c, x).drop_last() =~= rs.drop_last().update(c, x));
        lemma_record_index_update(rs.drop_last(), c, x, q);
    } else {
        assert(rs.update(c, x).drop_last() =~= rs.drop_last());
    }
}

proof fn lemma_chain_index_push(cs: Seq<ChainState>, x: ChainState, s2: Seq<char>)
    ensures
        chain_index(cs.push(x), s2) == if x.src@ == s2 { cs.len() as int } else { chain_index(cs, s2) },
{
    assert(cs.push(x).drop_last() =~= cs);
}

proof fn lemma_record_index_push(rs: Seq<SeqRecord>, x: SeqRecord, q: u64)
    ensures
        record_index(rs.push(x), q) == if x.seq == q { rs.len() as int } else { record_index(rs, q) },
{
    assert(rs.push(x).drop_last() =~= rs);
}

/// Every sender has at most `MAX_PENDING_PER_SRC` packets held back.
pub open spec fn pending_bounded(ps: Seq<Parked>) -> bool {
    forall|src: Seq<char>| #[trigger] parked_count(ps, src) <= MAX_PENDING_PER_SRC
}

proof fn lemma_parked_count_update(ps: Seq<Parked>, i: int, x: Parked, src: Seq<char>)
    requires
        0 <= i < ps.len(),
        x.src@ == ps[i].src@,
    ensures
        parked_count(ps.update(i, x), src) == parked_count(ps, src),
    decreases ps.len(),
{
    if i < ps.len() - 1 {
        assert(ps.update(i, x).drop_last() =~= ps.drop_last().update(i, x));
        lemma_parked_count_update(ps.drop_last(), i, x, src);
    } else {
        assert(ps.update(i, x).drop_last() =~= ps.drop_last());
    }
}

proof fn lemma_parked_count_push(ps: Seq<Parked>, x: Parked, src: Seq<char>)
    ensures
        parked_count(ps.push(x), src) == parked_count(ps, src) + if x.src@ == src { 1nat } else { 0nat },
{
    assert(ps.push(x).drop_last() =~= ps);
}

proof fn lemma_parked_count_remove(ps: Seq<Parked>, i: int, src: Seq<char>)
    requires
        0 <= i < ps.len(),
    ensures
        parked_count(ps.remove(i), src) + if ps[i].src@ == src { 1nat } else { 0nat } == parked_count(ps, src),
    decreases ps.len(),
{
    if i < ps.len() - 1 {
        assert(ps.remove(i).drop_last() =~= ps.drop_last().remove(i));
        lemma_parked_count_remove(ps.drop_last(), i, src);
    } else {
        assert(ps.remove(i) =~= ps.drop_last());
    }
}

/// The last sequence number accepted from `src` (0 before any).
pub open spec fn last_seq_of(cs: Seq<ChainState>, src: Seq<char>) -> u64 {
    let i = chain_index(cs, src);
    if i >= 0 { cs[i].last_seq } else { 0 }
}

/// The record of `src`'s packet `seq`, if one was accepted.
pub open spec fn record_of(cs: Seq<ChainState>, src: Seq<char>, seq: u64) -> Option<SeqRecord> {
    let i = chain_index(cs, src);
    if i >= 0 && record_index(cs[i].by_seq@, seq) >= 0 {
        Some(cs[i].by_seq@[record_index(cs[i].by_seq@, seq)])
    } else {
        None
    }
}

/// The sequence number that extends a chain whose last one is `last` (wrapping at the top).
pub open spec fn next_seq(last: u64) -> u64 {
    if last == u64::MAX { 0 } else { (last + 1) as u64 }
}

/// The predecessor hash a packet extending the chain must name: none at the start.
pub open spec fn expected_prev(cs: Seq<ChainState>, src: Seq<char>) -> Option<B3> {
    let i = chain_index(cs, src);
    if i >= 0 && cs[i].last_seq > 0 { Some(cs[i].last_hash) } else { None }
}

/// Whether a packet with sequence number `seq` and predecessor `prev` breaks `src`'s chain.
pub open spec fn breaks_chain(cs: Seq<ChainState>, src: Seq<char>, seq: u64, prev: Option<B3>) -> bool {
    &&& seq == next_seq(last_seq_of(cs, src))
    &&& prev != expected_prev(cs, src)
    &&& !(seq == 1 && prev is None)
}

/// The bytes of a declared delta, when the packet and its detached body agree.
pub open spec fn bound_delta(d: DeltaRefView, detached: Option<Seq<u8>>) -> Option<Seq<u8>> {
    match d {
        DeltaRefView::Inline(b) => Some(b),
        DeltaRefView::Detached { hash, len } => match detached {
            Some(b) => if blake3_digest(b) == hash@ && b.len() == len { Some(b) } else { None },
            None => None,
        },
    }
}

pub open spec fn opt_bytes(o: Option<Vec<u8>>) -> Option<Seq<u8>> {
    match o {
        Some(b) => Some(b@),
        None => None,
    }
}

pub open spec fn declared_len_of(d: DeltaRefView) -> int {
    match d {
        DeltaRefView::Inline(b) => b.len() as int,
        DeltaRefView::Detached { len, .. } => len as int,
    }
}


/// The digests already accepted, as byte sequences.
pub open spec fn seen_views(n: &AgentZkNode) -> Seq<Seq<u8>> {
    n.seen@.map_values(|h: B3| h@)
}

/// What `screen` decides for a packet, in the order the checks run.
pub enum Decision {
    BadSignature,
    Duplicate,
    NidMismatch,
    SchemaMismatch,
    DeltaTooLarge,
    Equivocation,
    PendingOverflow,
    Park,
    ChainBreak,
    MissingDeltaBody,
    InvalidDelta,
    Deliver,
}

/// The decision on packet `p` with signing bytes `sb` under the sender's key `key`.
pub open spec fn decide(n: &AgentZkNode, p: PacketView, key: Seq<u8>, sb: Seq<u8>, detached: Option<Seq<u8>>) -> Decision {
    let src = p.body.src;
    let seq = p.body.seq;
    if !(p.sig.len() == 64 && ed25519_accepts(key, sb, p.sig)) {
        Decision::BadSignature
    } else if seen_views(n).contains(blake3_digest(sb)) {
        Decision::Duplicate
    } else if p.body.hlc.node_id@ != nid_of(src) {
        Decision::NidMismatch
    } else if p.body.schema != n.schema_hash {
        Decision::SchemaMismatch
    } else if declared_len_of(p.body.delta) > MAX_DELTA_LEN {
        Decision::DeltaTooLarge
    } else if record_of(n.chains@, src, seq) is Some {
        if record_of(n.chains@, src, seq)->0.hash@ == blake3_digest(sb) {
            Decision::Duplicate
        } else {
            Decision::Equivocation
        }
    } else if seq > next_seq(last_seq_of(n.chains@, src)) {
        if parked_count(n.pending@, src) >= MAX_PENDING_PER_SRC {
            Decision::PendingOverflow
        } else {
            Decision::Park
        }
    } else if breaks_chain(n.chains@, src, seq, p.body.prev) {
        Decision::ChainBreak
    } else if p.body.delta is Detached && detached is None {
        Decision::MissingDeltaBody
    } else if bound_delta(p.body.delta, detached) is None {
        Decision::InvalidDelta
    } else {
        Decision::Deliver
    }
}

/// The node's state apart from what `screen` changes: graph, log, hashes, chains.
pub open spec fn same_core(a: &AgentZkNode, b: &AgentZkNode) -> bool {
    &&& a.id == b.id
    &&& a.schema_hash == b.schema_hash
    &&& a.policy_hash == b.policy_hash
    &&& a.graph == b.graph
    &&& a.merge == b.merge
    &&& a.wal == b.wal
    &&& a.seen == b.seen
    &&& a.chains == b.chains
}

impl AgentZkNode {
    /// A replica with an empty graph for the given schema and merge policy.
    pub fn new(id: String, schema_hash: B3, policy_hash: B3) -> (r: Self)
        ensures
            r.wf(),
            r.id == id,
            r.schema_hash == schema_hash,
            r.policy_hash == policy_hash,
            r.merge.policy.schema_hash == schema_hash,
            r.merge.policy.policy_hash == policy_hash,
            r.graph@ == Map::<Seq<char>, crate::graph::EntityView>::empty(),
            r.wal@.len() == 0,
            r.seen@.len() == 0,
            r.chains@.len() == 0,
            r.pending@.len() == 0,
            pending_bounded(r.pending@),
            r.equivocation_evidence@.len() == 0,
    {
        let merge = MergeEngine::new(MergePolicy::new(schema_hash, policy_hash));
        assert forall|src: Seq<char>| true implies #[trigger] parked_count(Seq::<Parked>::empty(), src) <= MAX_PENDING_PER_SRC by {}
        AgentZkNode {
            id,
            schema_hash,
            policy_hash,
            graph: GraphState::new(),
            merge,
            wal: Vec::new(),
            seen: Vec::new(),
            chains: Vec::new(),
            pending: Vec::new(),
            equivocation_evidence: Vec::new(),
        }
    }

    pub open spec fn wf(&self) -> bool {
        self.graph.wf()
    }

    /// Whether a packet with this content hash was already accepted.
    pub fn has_seen(&self, hash: &B3) -> (r: bool)
        ensures
            r == self.seen@.contains(*hash),
    {
        let mut i: usize = 0;
        while i < self.seen.len()
            invariant
                i <= self.seen@.len(),
                forall|j: int| 0 <= j < i ==> self.seen@[j] != *hash,
            decreases self.seen@.len() - i,
        {
            if digest_eq(&self.seen[i], hash) {
                return true;
            }
            i = i + 1;
        }
        false
    }

    fn find_record(chain: &ChainState, seq: u64) -> (r: Option<usize>)
        ensures
            r matches Some(i) ==> i as int == record_index(chain.by_seq@, seq),
            r is None <==> record_index(chain.by_seq@, seq) < 0,
    {
        proof { lemma_record_index(chain.by_seq@, seq); }
        let mut i: usize = chain.by_seq.len();
        while i > 0
            invariant
                i <= chain.by_seq@.len(),
                -1 <= record_index(chain.by_seq@, seq) < chain.by_seq@.len(),
                record_index(chain.by_seq@, seq) >= 0 ==> chain.by_seq@[record_index(chain.by_seq@, seq)].seq == seq,
                forall|j: int| record_index(chain.by_seq@, seq) < j < chain.by_seq@.len() ==> (#[trigger] chain.by_seq@[j]).seq != seq,
                record_index(chain.by_seq@, seq) < i,
            decreases i,
        {
            if chain.by_seq[i - 1].seq == seq {
                return Some(i - 1);
            }
            i = i - 1;
        }
        None
    }

    fn find_parked(&self, src: &str, seq: u64) -> (r: Option<usize>)
        ensures
            r matches Some(i) ==> i as int == parked_index(self.pending@, src@, seq),
            r is None <==> parked_index(self.pending@, src@, seq) < 0,
    {
        proof { lemma_parked_index(self.pending@, src@, seq); }
        let mut i: usize = self.pending.len();
        while i > 0
            invariant
                i <= self.pending@.len(),
                -1 <= parked_index(self.pending@, src@, seq) < self.pending@.len(),
                parked_index(self.pending@, src@, seq) >= 0 ==> self.pending@[parked_index(self.pending@, src@, seq)].src@ == src@
                    && self.pending@[parked_index(self.pending@, src@, seq)].seq == seq,
                forall|j: int| parked_index(self.pending@, src@, seq) < j < self.pending@.len() ==> !((#[trigger] self.pending@[j]).src@ == src@
                    && self.pending@[j].seq == seq),
                parked_index(self.pending@, src@, seq) < i,
            decreases i,
        {
            if self.pending[i - 1].seq == seq && str_eq(self.pending[i - 1].src.as_str(), src) {
                return Some(i - 1);
            }
            i = i - 1;
        }
        None
    }

    /// How many packets of `src` are held back.
    pub fn count_parked(&self, src: &str) -> (r: usize)
        ensures
            r == parked_count(self.pending@, src@),
    {
        let mut n: usize = 0;
        let mut i: usize = 0;
        while i < self.pending.len()
            invariant
                i <= self.pending@.len(),
                n == parked_count(self.pending@.take(i as int), src@),
                n <= i,
            decreases self.pending@.len() - i,
        {
            proof {
                assert(self.pending@.take(i + 1).drop_last() =~= self.pending@.take(i as int));
            }
            if str_eq(self.pending[i].src.as_str(), src) {
                n = n + 1;
            }
            i = i + 1;
        }
        assert(self.pending@.take(self.pending@.len() as int) =~= self.pending@);
        n
    }

    /// Runs every check on a signed packet before its delta is decoded.
    /// `key` is the sender's public key, `detached` the delta body when the
    /// packet carries only its digest.
    /// A refused or duplicate packet leaves the node as it was, except that an
    /// equivocation is recorded and a future packet is held back.
    pub fn screen(
        &mut self,
        packet: PckpPacket,
        key: &[u8; 32],
        detached: Option<Vec<u8>>,
    ) -> (r: Result<Admission, AgentZkError>)
        ensures
            ({
                let d = decide(old(self), packet@, key@, signing_input(packet@.body), opt_bytes(detached));
                let src = packet@.body.src;
                let seq = packet@.body.seq;
                &&& d is BadSignature ==> (r matches Err(AgentZkError::BadSignature))
                &&& d is Duplicate ==> (r matches Ok(Admission::Duplicate))
                &&& d is NidMismatch ==> (r matches Err(AgentZkError::NidMismatch))
                &&& d is SchemaMismatch ==> (r matches Err(AgentZkError::SchemaMismatch { expected, got })
                    && expected@ == hex_lower(old(self).schema_hash@) && got@ == hex_lower(packet@.body.schema@))
                &&& d is DeltaTooLarge ==> (r matches Err(AgentZkError::DeltaTooLarge(n))
                    && n == declared_len_of(packet@.body.delta))
                &&& d is Equivocation ==> (r matches Err(AgentZkError::Equivocation { src: s, seq: q })
                    && s@ == src && q == seq)
                &&& d is PendingOverflow ==> (r matches Err(AgentZkError::PendingOverflow))
                &&& d is Park ==> (r matches Ok(Admission::Parked))
                &&& d is ChainBreak ==> (r matches Err(AgentZkError::ChainBreak { src: s, seq: q })
                    && s@ == src && q == seq)
                &&& d is MissingDeltaBody ==> (r matches Err(AgentZkError::MissingDeltaBody))
                &&& d is InvalidDelta ==> (r matches Err(AgentZkError::InvalidDelta))
                &&& d is Deliver ==> (r matches Ok(Admission::Deliver { content_hash, delta_bytes })
                    && content_hash@ == blake3_digest(signing_input(packet@.body))
                    && delta_bytes@ == bound_delta(packet@.body.delta, opt_bytes(detached))->0)
                &&& !(d is Equivocation) && !(d is Park) ==> *final(self) == *old(self)
                &&& same_core(final(self), old(self))
                &&& d is Equivocation ==> {
                    &&& final(self).pending == old(self).pending
                    &&& final(self).equivocation_evidence@.len() == old(self).equivocation_evidence@.len() + 1
                    &&& final(self).equivocation_evidence@.drop_last() == old(self).equivocation_evidence@
                    &&& final(self).equivocation_evidence@.last().0@ == record_of(old(self).chains@, src, seq)->0.packet@
                    &&& final(self).equivocation_evidence@.last().1@ == packet@
                }
                &&& pending_bounded(old(self).pending@) ==> pending_bounded(final(self).pending@)
                &&& d is Park ==> {
                    let i = parked_index(old(self).pending@, src, seq);
                    let at = if i >= 0 { i } else { old(self).pending@.len() as int };
                    &&& final(self).equivocation_evidence == old(self).equivocation_evidence
                    &&& final(self).pending@.len() == if i >= 0 { old(self).pending@.len() } else { old(self).pending@.len() + 1 }
                    &&& forall|k: int| 0 <= k < old(self).pending@.len() && k != at ==> final(self).pending@[k] == old(self).pending@[k]
                    &&& final(self).pending@[at].src@ == src
                    &&& final(self).pending@[at].seq == seq
                    &&& final(self).pending@[at].packet@ == packet@
                    &&& opt_bytes(final(self).pending@[at].detached) == opt_bytes(detached)
                }
            }),
    {
        let ghost d = decide(self, packet@, key@, signing_input(packet@.body), opt_bytes(detached));
        match packet.verify(key) {
            Ok(()) => {},
            Err(e) => { return Err(e); },
        }
        let ch = packet.content_hash();
        proof {
            assert(self.seen@.contains(ch) == seen_views(self).contains(ch@)) by {
                if seen_views(self).contains(ch@) {
                    let j = choose|j: int| 0 <= j < seen_views(self).len() && seen_views(self)[j] == ch@;
                    assert(self.seen@[j] =~= ch);
                }
                if self.seen@.contains(ch) {
                    let j = choose|j: int| 0 <= j < self.seen@.len() && self.seen@[j] == ch;
                    assert(seen_views(self)[j] == ch@);
                }
            }
        }
        if self.has_seen(&ch) {
            return Ok(Admission::Duplicate);
        }
        let nid = nid_for(packet.body.src.as_str());
        if !nid_eq(&packet.body.hlc.node_id, &nid) {
            return Err(AgentZkError::NidMismatch);
        }
        if !digest_eq(&packet.body.schema, &self.schema_hash) {
            return Err(AgentZkError::SchemaMismatch {
                expected: hex_encode(&self.schema_hash),
                got: hex_encode(&packet.body.schema),
            });
        }
        let declared = packet.body.delta.declared_len();
        if declared > MAX_DELTA_LEN {
            return Err(AgentZkError::DeltaTooLarge(declared));
        }
        let seq = packet.body.seq;
        let ci = self.find_chain(packet.body.src.as_str());
        proof { lemma_chain_index(self.chains@, packet@.body.src); }
        if let Some(c) = ci {
            let ri = Self::find_record(&self.chains[c], seq);
            proof { lemma_record_index(self.chains@[c as int].by_seq@, seq); }
            if let Some(k) = ri {
                assert(record_of(self.chains@, packet@.body.src, seq) == Some(self.chains@[c as int].by_seq@[k as int]));
                if digest_eq(&self.chains[c].by_seq[k].hash, &ch) {
                    return Ok(Admission::Duplicate);
                }
                proof {
                    let h = self.chains@[c as int].by_seq@[k as int].hash;
                    if h@ == ch@ {
                        assert(h =~= ch);
                    }
                }
                let prev = self.chains[c].by_seq[k].packet.duplicate();
                let src = packet.body.src.clone();
                let ghost pv = packet@;
                self.equivocation_evidence.push((prev, packet));
                proof {
                    assert(self.equivocation_evidence@.drop_last() =~= old(self).equivocation_evidence@);
                    assert(d is Equivocation);
                    assert(self.equivocation_evidence@.last().1@ == pv);
                }
                return Err(AgentZkError::Equivocation { src, seq });
            }
        }
        let last: u64 = match ci {
            Some(c) => self.chains[c].last_seq,
            None => 0,
        };
        let expected: u64 = if last == u64::MAX { 0 } else { last + 1 };
        if seq > expected {
            if self.count_parked(packet.body.src.as_str()) >= MAX_PENDING_PER_SRC {
                return Err(AgentZkError::PendingOverflow);
            }
            let slot = self.find_parked(packet.body.src.as_str(), seq);
            proof { lemma_parked_index(self.pending@, packet@.body.src, seq); }
            let entry = Parked { src: packet.body.src.clone(), seq, packet, detached };
            let ghost old_ps = self.pending@;
            let ghost x = entry;
            match slot {
                Some(i) => {
                    self.pending.set(i, entry);
                    proof {
                        assert forall|s2: Seq<char>| true implies #[trigger] parked_count(self.pending@, s2) == parked_count(old_ps, s2) by {
                            lemma_parked_count_update(old_ps, i as int, x, s2);
                        }
                    }
                },
                None => {
                    self.pending.push(entry);
                    proof {
                        assert forall|s2: Seq<char>| pending_bounded(old_ps) implies #[trigger] parked_count(self.pending@, s2) <= MAX_PENDING_PER_SRC by {
                            lemma_parked_count_push(old_ps, x, s2);
                        }
                    }
                },
            }
            return Ok(Admission::Parked);
        }
        let expected_prev: Option<B3> = match ci {
            Some(c) => if self.chains[c].last_seq > 0 { Some(self.chains[c].last_hash) } else { None },
            None => None,
        };
        let prev_matches = match (&packet.body.prev, &expected_prev) {
            (Some(a), Some(b)) => digest_eq(a, b),
            (None, None) => true,
            _ => false,
        };
        if seq == expected && !prev_matches && !(seq == 1 && packet.body.prev.is_none()) {
            return Err(AgentZkError::ChainBreak { src: packet.body.src.clone(), seq });
        }
        assert(!breaks_chain(self.chains@, packet@.body.src, seq, packet@.body.prev));
        assert(!(seq > next_seq(last_seq_of(self.chains@, packet@.body.src))));
        assert(record_of(self.chains@, packet@.body.src, seq) is None);
        match &packet.body.delta {
            DeltaRef::Inline(bytes) => {
                assert(d is Deliver);
                Ok(Admission::Deliver { content_hash: ch, delta_bytes: copy_bytes(bytes) })
            },
            DeltaRef::Detached { hash, len } => {
                match detached {
                    None => {
                        assert(d is MissingDeltaBody);
                        Err(AgentZkError::MissingDeltaBody)
                    },
                    Some(bytes) => {
                        let h = b3(bytes.as_slice());
                        proof {
                            if h@ == hash@ {
                                assert(h =~= *hash);
                            }
                        }
                        if !digest_eq(&h, hash) || bytes.len() != *len as usize {
                            assert(d is InvalidDelta);
                            Err(AgentZkError::InvalidDelta)
                        } else {
                            assert(d is Deliver);
                            Ok(Admission::Deliver { content_hash: ch, delta_bytes: bytes })
                        }
                    },
                }
            },
        }
    }

    /// Records `record` in `chain`, replacing any record with the same sequence number.
    fn put_record(chain: &mut ChainState, record: SeqRecord)
        ensures
            final(chain).src == old(chain).src,
            final(chain).last_seq == old(chain).last_seq,
            final(chain).last_hash == old(chain).last_hash,
            record_index(final(chain).by_seq@, record.seq) >= 0,
            final(chain).by_seq@[record_index(final(chain).by_seq@, record.seq)] == record,
            forall|q: u64| q != record.seq ==> {
                &&& #[trigger] record_index(final(chain).by_seq@, q) == record_index(old(chain).by_seq@, q)
                &&& record_index(old(chain).by_seq@, q) >= 0 ==> final(chain).by_seq@[record_index(old(chain).by_seq@, q)]
                    == old(chain).by_seq@[record_index(old(chain).by_seq@, q)]
            },
    {
        let ghost old_rs = chain.by_seq@;
        let ghost x = record;
        proof { lemma_record_index(old_rs, record.seq); }
        match Self::find_record(chain, record.seq) {
            Some(k) => {
                chain.by_seq.set(k, record);
                proof {
                    assert forall|q: u64| true implies #[trigger] record_index(chain.by_seq@, q) == record_index(old_rs, q) by {
                        lemma_record_index_update(old_rs, k as int, x, q);
                    }
                    assert forall|q: u64| q != x.seq && record_index(old_rs, q) >= 0 implies chain.by_seq@[record_index(old_rs, q)] == old_rs[record_index(old_rs, q)] by {
                        lemma_record_index(old_rs, q);
                    }
                }
            },
            None => {
                chain.by_seq.push(record);
                proof {
                    assert forall|q: u64| true implies #[trigger] record_index(chain.by_seq@, q) == if x.seq == q { old_rs.len() as int } else { record_index(old_rs, q) } by {
                        lemma_record_index_push(old_rs, x, q);
                    }
                    assert forall|q: u64| q != x.seq && record_index(old_rs, q) >= 0 implies chain.by_seq@[record_index(old_rs, q)] == old_rs[record_index(old_rs, q)] by {
                        lemma_record_index(old_rs, q);
                    }
                }
            },
        }
    }

    /// Folds a screened packet's decoded delta into the graph with metadata from
    /// its envelope (clock, tier, and the writer id bound to its sender), then
    /// records it: the sender's chain advances to it, its content hash counts as
    /// seen, and it joins the log. Returns what the merge did.
    pub fn commit(&mut self, packet: PckpPacket, delta: &GraphDelta) -> (report: MergeReport)
        requires
            old(self).wf(),
        ensures
            final(self).wf(),
            content_hash_of(packet.body@)@ == blake3_digest(signing_input(packet.body@)),
            exists|ctx: MergeCtx| {
                &&& ctx.hlc == packet.body.hlc
                &&& ctx.tier == packet.body.tier
                &&& ctx.writer@ == nid_of(packet.body.src@)
                &&& final(self).graph@ == apply_delta(old(self).graph@, delta@, ctx)
                &&& report.props_applied == patches_applied(old(self).graph@, delta@.props, ctx)
                &&& report.edges_added == edges_new(apply_patches(old(self).graph@, delta@.props, ctx), delta@.edges)
            },
            report.props_applied + report.props_shadowed == delta.props@.len(),
            final(self).wal@ == old(self).wal@.push(packet),
            final(self).seen@ == old(self).seen@.push(content_hash_of(packet.body@)),
            final(self).pending == old(self).pending,
            final(self).equivocation_evidence == old(self).equivocation_evidence,
            final(self).id == old(self).id,
            final(self).schema_hash == old(self).schema_hash,
            final(self).policy_hash == old(self).policy_hash,
            last_seq_of(final(self).chains@, packet.body.src@) == packet.body.seq,
            expected_prev(final(self).chains@, packet.body.src@) == if packet.body.seq > 0 { Some(content_hash_of(packet.body@)) } else { None::<B3> },
            record_of(final(self).chains@, packet.body.src@, packet.body.seq) matches Some(r) && r.seq == packet.body.seq
                && r.hash == content_hash_of(packet.body@) && r.packet@ == packet@,
            forall|q: u64| q != packet.body.seq ==> #[trigger] record_of(final(self).chains@, packet.body.src@, q)
                == record_of(old(self).chains@, packet.body.src@, q),
            forall|s2: Seq<char>| s2 != packet.body.src@ ==> #[trigger] last_seq_of(final(self).chains@, s2)
                == last_seq_of(old(self).chains@, s2),
            forall|s2: Seq<char>| s2 != packet.body.src@ ==> #[trigger] expected_prev(final(self).chains@, s2)
                == expected_prev(old(self).chains@, s2),
            forall|s2: Seq<char>, q: u64| s2 != packet.body.src@ ==> #[trigger] record_of(final(self).chains@, s2, q)
                == record_of(old(self).chains@, s2, q),
    {
        let content_hash = packet.content_hash();
        proof {
            let c = content_hash_of(packet.body@);
            assert(exists|h: B3| #![trigger h@] h@ == blake3_digest(signing_input(packet.body@)));
            assert(c@ == blake3_digest(signing_input(packet.body@)));
            assert(c =~= content_hash);
        }
        let ctx = MergeCtx { hlc: packet.body.hlc, tier: packet.body.tier, writer: nid_for(packet.body.src.as_str()) };
        let report = self.merge.apply(&mut self.graph, delta, &ctx);
        let seq = packet.body.seq;
        let record = SeqRecord { seq, hash: content_hash, packet: packet.duplicate() };
        let ghost old_cs = self.chains@;
        let ghost src = packet.body.src@;
        proof { lemma_chain_index(old_cs, src); }
        match self.find_chain(packet.body.src.as_str()) {
            Some(c) => {
                let mut chain = self.chains.remove(c);
                let ghost old_chain = chain;
                chain.last_seq = seq;
                chain.last_hash = content_hash;
                Self::put_record(&mut chain, record);
                proof {
                    assert(old_cs.remove(c as int).insert(c as int, chain) =~= old_cs.update(c as int, chain));
                }
                self.chains.insert(c, chain);
                proof {
                    assert forall|s2: Seq<char>| true implies #[trigger] chain_index(self.chains@, s2) == chain_index(old_cs, s2) by {
                        lemma_chain_index_update(old_cs, c as int, chain, s2);
                    }
                    assert forall|s2: Seq<char>| s2 != src implies #[trigger] last_seq_of(self.chains@, s2) == last_seq_of(old_cs, s2) by {
                        lemma_chain_index(old_cs, s2);
                        let i2 = chain_index(old_cs, s2);
                        if i2 >= 0 {
                            assert(i2 != c);
                            assert(self.chains@[i2] == old_cs[i2]);
                        }
                    }
                    assert forall|s2: Seq<char>| s2 != src implies #[trigger] expected_prev(self.chains@, s2) == expected_prev(old_cs, s2) by {
                        lemma_chain_index(old_cs, s2);
                        let i2 = chain_index(old_cs, s2);
                        if i2 >= 0 {
                            assert(i2 != c);
                            assert(self.chains@[i2] == old_cs[i2]);
                        }
                    }
                    assert forall|s2: Seq<char>, q: u64| s2 != src implies #[trigger] record_of(self.chains@, s2, q) == record_of(old_cs, s2, q) by {
                        lemma_chain_index(old_cs, s2);
                        let i2 = chain_index(old_cs, s2);
                        if i2 >= 0 {
                            assert(i2 != c);
                            assert(self.chains@[i2] == old_cs[i2]);
                        }
                    }
                }
            },
            None => {
                let mut chain = ChainState { src: packet.body.src.clone(), last_seq: seq, last_hash: content_hash, by_seq: Vec::new() };
                Self::put_record(&mut chain, record);
                self.chains.push(chain);
                proof {
                    assert forall|s2: Seq<char>| true implies #[trigger] chain_index(self.chains@, s2) == if chain.src@ == s2 { old_cs.len() as int } else { chain_index(old_cs, s2) } by {
                        lemma_chain_index_push(old_cs, chain, s2);
                    }
                    assert forall|s2: Seq<char>| s2 != src implies #[trigger] last_seq_of(self.chains@, s2) == last_seq_of(old_cs, s2) by {
                        lemma_chain_index(old_cs, s2);
                    }
                    assert forall|s2: Seq<char>| s2 != src implies #[trigger] expected_prev(self.chains@, s2) == expected_prev(old_cs, s2) by {
                        lemma_chain_index(old_cs, s2);
                    }
                    assert forall|s2: Seq<char>, q: u64| s2 != src implies #[trigger] record_of(self.chains@, s2, q) == record_of(old_cs, s2, q) by {
                        lemma_chain_index(old_cs, s2);
                    }
                    assert forall|q: u64| q != seq implies #[trigger] record_of(self.chains@, src, q) == record_of(old_cs, src, q) by {
                        assert(record_index(Seq::<SeqRecord>::empty(), q) == -1);
                    }
                }
            },
        }
        self.seen.push(content_hash);
        self.wal.push(packet);
        report
    }

    /// Takes out the held-back packet that now extends `src`'s chain, if any,
    /// with its detached delta body.
    pub fn take_parked(&mut self, src: &str) -> (r: Option<(PckpPacket, Option<Vec<u8>>)>)
        ensures
            ({
                let i = parked_index(old(self).pending@, src@, next_seq(last_seq_of(old(self).chains@, src@)));
                &&& i >= 0 ==> r == Some((old(self).pending@[i].packet, old(self).pending@[i].detached))
                    && final(self).pending@ == old(self).pending@.remove(i)
                    && same_core(final(self), old(self))
                    && final(self).equivocation_evidence == old(self).equivocation_evidence
                &&& i < 0 ==> r is None && *final(self) == *old(self)
                &&& pending_bounded(old(self).pending@) ==> pending_bounded(final(self).pending@)
            }),
    {
        proof { lemma_chain_index(self.chains@, src@); }
        let last: u64 = match self.find_chain(src) {
            Some(c) => self.chains[c].last_seq,
            None => 0,
        };
        let next: u64 = if last == u64::MAX { 0 } else { last + 1 };
        proof { lemma_parked_index(self.pending@, src@, next); }
        match self.find_parked(src, next) {
            Some(i) => {
                let ghost old_ps = self.pending@;
                let e = self.pending.remove(i);
                proof {
                    assert forall|s2: Seq<char>| pending_bounded(old_ps) implies #[trigger] parked_count(self.pending@, s2) <= MAX_PENDING_PER_SRC by {
                        lemma_parked_count_remove(old_ps, i as int, s2);
                    }
                }
                Some((e.packet, e.detached))
            },
            None => None,
        }
    }

    fn find_chain(&self, src: &str) -> (r: Option<usize>)
        ensures
            r matches Some(i) ==> i as int == chain_index(self.chains@, src@),
            r is None <==> chain_index(self.chains@, src@) < 0,
    {
        proof { lemma_chain_index(self.chains@, src@); }
        let mut i: usize = self.chains.len();
        while i > 0
            invariant
                i <= self.chains@.len(),
                -1 <= chain_index(self.chains@, src@) < self.chains@.len(),
                chain_index(self.chains@, src@) >= 0 ==> self.chains@[chain_index(self.chains@, src@)].src@ == src@,
                forall|j: int| chain_index(self.chains@, src@) < j < self.chains@.len() ==> (#[trigger] self.chains@[j]).src@ != src@,
                chain_index(self.chains@, src@) < i,
            decreases i,
        {
            if str_eq(self.chains[i - 1].src.as_str(), src) {
                return Some(i - 1);
            }
            i = i - 1;
        }
        None
    }
}

/// Once a packet's content hash is recorded (as `commit` records it), the same
/// packet, validly signed, is answered `Duplicate` before any other check, and
/// `screen` then leaves the node untouched.
pub proof fn lemma_recorded_packet_is_duplicate(
    before: &AgentZkNode,
    after: &AgentZkNode,
    h: B3,
    p: PacketView,
    key: Seq<u8>,
    signing_bytes: Seq<u8>,
    detached: Option<Seq<u8>>,
)
    requires
        after.seen@ == before.seen@.push(h),
        h@ == blake3_digest(signing_bytes),
        p.sig.len() == 64,
        ed25519_accepts(key, signing_bytes, p.sig),
    ensures
        decide(after, p, key, signing_bytes, detached) is Duplicate,
{
    let i = before.seen@.len() as int;
    assert(seen_views(after)[i] == h@);
}

/// A packet that reuses an accepted (sender, sequence) pair with other content is
/// an equivocation, unless an earlier check refuses it first.
pub proof fn lemma_reused_sequence_is_equivocation(
    n: &AgentZkNode,
    p: PacketView,
    key: Seq<u8>,
    signing_bytes: Seq<u8>,
    detached: Option<Seq<u8>>,
)
    requires
        p.sig.len() == 64,
        ed25519_accepts(key, signing_bytes, p.sig),
        !seen_views(n).contains(blake3_digest(signing_bytes)),
        p.body.hlc.node_id@ == nid_of(p.body.src),
        p.body.schema == n.schema_hash,
        declared_len_of(p.body.delta) <= MAX_DELTA_LEN,
        record_of(n.chains@, p.body.src, p.body.seq) matches Some(r) && r.hash@ != blake3_digest(signing_bytes),
    ensures
        decide(n, p, key, signing_bytes, detached) is Equivocation,
{
}

/// A packet that names the sender's last accepted packet as its predecessor,
/// with the next sequence number, extends the chain rather than breaking it.
pub proof fn lemma_successor_extends_chain(cs: Seq<ChainState>, src: Seq<char>, h: B3)
    requires
        last_seq_of(cs, src) > 0,
        expected_prev(cs, src) == Some(h),
    ensures
        !breaks_chain(cs, src, next_seq(last_seq_of(cs, src)), Some(h)),
{
}
} // verus!
