//! The receive step as a model over mathematical state, and the laws it serves:
//! replicas that receive the same packets, in any order, with duplicates,
//! held-back packets and refused packets among them, hold the same graph; and
//! each sender's merged packets form its chain.
//!
//! A packet reaches a replica with the detached delta body sent beside it (an
//! `Arrival`). The step runs the checks of `screen` in the same order; a
//! delivered packet whose delta decodes is merged as `commit` merges it, and
//! the held-back packets that then extend its sender's chain are drained as
//! `take_parked` hands them out. What the step takes from outside the node
//! (the registered keys, the decoded delta of an encoding) is given as
//! functions (`Outside`).

use vstd::prelude::*;
use crate::convergence::{merge_all, lemma_merge_all_append, lemma_merge_moves_past};
use crate::graph::{DeltaView, EntityView};
use crate::hash::{B3, blake3_digest};
use crate::merge::{MergeCtx, apply_delta};
use crate::node::{AgentZkNode, Decision, MAX_DELTA_LEN, MAX_PENDING_PER_SRC, Parked, bound_delta, decide, declared_len_of, expected_prev, last_seq_of, next_seq, nid_of, opt_bytes, parked_count, parked_index, record_of, same_core, seen_views};
use crate::packet::{BodyView, PacketView, ed25519_accepts, signing_input};

verus! {

/// A packet as it reaches a replica, with the detached delta body sent beside it.
pub struct Arrival {
    pub packet: PacketView,
    pub detached: Option<Seq<u8>>,
}

/// What the receive step takes from outside the node.
pub struct Outside {
    /// The public key the key registry binds to a sender and key reference, if any.
    pub key: spec_fn(Seq<char>, Seq<char>) -> Option<Seq<u8>>,
    /// The delta an encoding decodes to, if it decodes.
    pub decode: spec_fn(Seq<u8>) -> Option<DeltaView>,
}

/// A replica as the receive step sees it. The equivocation evidence a node
/// keeps is left out: no check reads it.
pub struct ReplicaModel {
    pub schema: B3,
    pub graph: Map<Seq<char>, EntityView>,
    /// Content hashes of the merged packets, in merge order.
    pub seen: Seq<Seq<u8>>,
    /// Each sender's last merged sequence number (0 before any).
    pub last: spec_fn(Seq<char>) -> u64,
    /// The predecessor hash each sender's next packet must name.
    pub prev: spec_fn(Seq<char>) -> Option<Seq<u8>>,
    /// The content hash merged for a (sender, sequence number), if any.
    pub recs: spec_fn(Seq<char>, u64) -> Option<Seq<u8>>,
    /// Held-back packets.
    pub held: Seq<Arrival>,
    /// The merged packets, in merge order.
    pub log: Seq<Arrival>,
}

/// The sender an arrival names.
#[verifier::inline]
pub open spec fn src_of(a: Arrival) -> Seq<char> {
    a.packet.body.src
}

/// The sequence number an arrival carries.
#[verifier::inline]
pub open spec fn seq_of(a: Arrival) -> u64 {
    a.packet.body.seq
}

/// A packet's content hash: BLAKE3 of its signing bytes.
#[verifier::inline]
pub open spec fn digest_of(x: Outside, a: Arrival) -> Seq<u8> {
    blake3_digest(signing_input(a.packet.body))
}

/// An optional digest as its bytes.
pub open spec fn opt_view(o: Option<B3>) -> Option<Seq<u8>> {
    match o {
        Some(h) => Some(h@),
        None => None,
    }
}

/// The index of the last held-back packet of `src` with `seq`, or -1.
pub open spec fn held_index(hs: Seq<Arrival>, src: Seq<char>, seq: u64) -> int
    decreases hs.len(),
{
    if hs.len() == 0 {
        -1
    } else if src_of(hs.last()) == src && seq_of(hs.last()) == seq {
        hs.len() - 1
    } else {
        held_index(hs.drop_last(), src, seq)
    }
}

/// How many held-back packets `src` has.
pub open spec fn held_count(hs: Seq<Arrival>, src: Seq<char>) -> nat
    decreases hs.len(),
{
    if hs.len() == 0 {
        0
    } else {
        held_count(hs.drop_last(), src) + if src_of(hs.last()) == src { 1nat } else { 0nat }
    }
}

/// What the checks decide for an arrival, in the order `screen` runs them. A
/// sender the key registry does not know is refused first, with the bad
/// signatures.
pub open spec fn model_decide(m: ReplicaModel, a: Arrival, x: Outside) -> Decision {
    let b = a.packet.body;
    let sb = signing_input(b);
    let h = blake3_digest(sb);
    if !((x.key)(b.src, b.key) is Some && a.packet.sig.len() == 64 && ed25519_accepts(
        (x.key)(b.src, b.key)->0,
        sb,
        a.packet.sig,
    )) {
        Decision::BadSignature
    } else if m.seen.contains(h) {
        Decision::Duplicate
    } else if b.hlc.node_id@ != nid_of(b.src) {
        Decision::NidMismatch
    } else if b.schema != m.schema {
        Decision::SchemaMismatch
    } else if declared_len_of(b.delta) > MAX_DELTA_LEN {
        Decision::DeltaTooLarge
    } else if (m.recs)(b.src, b.seq) is Some {
        if (m.recs)(b.src, b.seq)->0 == h {
            Decision::Duplicate
        } else {
            Decision::Equivocation
        }
    } else if b.seq > next_seq((m.last)(b.src)) {
        if held_count(m.held, b.src) >= MAX_PENDING_PER_SRC {
            Decision::PendingOverflow
        } else {
            Decision::Park
        }
    } else if b.seq == next_seq((m.last)(b.src)) && opt_view(b.prev) != (m.prev)(b.src) && !(b.seq == 1
        && b.prev is None) {
        Decision::ChainBreak
    } else if b.delta is Detached && a.detached is None {
        Decision::MissingDeltaBody
    } else if bound_delta(b.delta, a.detached) is None {
        Decision::InvalidDelta
    } else {
        Decision::Deliver
    }
}

/// The merge metadata of a packet: its clock, its tier, and the writer id bound to its sender.
pub open spec fn ctx_of(b: BodyView) -> MergeCtx {
    MergeCtx { hlc: b.hlc, tier: b.tier, writer: choose|w: [u8; 8]| w@ == nid_of(b.src) }
}

/// The delta an arrival carries, as decoded.
pub open spec fn delta_of(x: Outside, a: Arrival) -> DeltaView {
    (x.decode)(bound_delta(a.packet.body.delta, a.detached)->0)->0
}

/// The deltas of merged arrivals with their merge metadata, in merge order.
pub open spec fn entries(x: Outside, log: Seq<Arrival>) -> Seq<(DeltaView, MergeCtx)> {
    log.map_values(|a: Arrival| (delta_of(x, a), ctx_of(a.packet.body)))
}

/// The content hashes of merged arrivals, in merge order.
pub open spec fn digests(x: Outside, log: Seq<Arrival>) -> Seq<Seq<u8>> {
    log.map_values(|a: Arrival| digest_of(x, a))
}

/// The replica with `hs` as its held-back packets.
pub open spec fn with_held(m: ReplicaModel, hs: Seq<Arrival>) -> ReplicaModel {
    ReplicaModel {
        schema: m.schema,
        graph: m.graph,
        seen: m.seen,
        last: m.last,
        prev: m.prev,
        recs: m.recs,
        held: hs,
        log: m.log,
    }
}

/// Holds an arrival back, replacing a held packet with the same sender and sequence number.
pub open spec fn model_park(m: ReplicaModel, a: Arrival) -> ReplicaModel {
    let i = held_index(m.held, src_of(a), seq_of(a));
    with_held(m, if i >= 0 { m.held.update(i, a) } else { m.held.push(a) })
}

/// Merges a delivered arrival and records it, as `commit` does.
pub open spec fn model_commit(m: ReplicaModel, a: Arrival, x: Outside) -> ReplicaModel {
    let b = a.packet.body;
    let h = digest_of(x, a);
    ReplicaModel {
        schema: m.schema,
        graph: apply_delta(m.graph, delta_of(x, a), ctx_of(b)),
        seen: m.seen.push(h),
        last: |s: Seq<char>| if s == b.src { b.seq } else { (m.last)(s) },
        prev: |s: Seq<char>|
            if s == b.src {
                if b.seq > 0 { Some(h) } else { None }
            } else {
                (m.prev)(s)
            },
        recs: |s: Seq<char>, q: u64| if s == b.src && q == b.seq { Some(h) } else { (m.recs)(s, q) },
        held: m.held,
        log: m.log.push(a),
    }
}

/// One arrival through the checks and, if delivered and its delta decodes, the merge.
pub open spec fn model_step(m: ReplicaModel, a: Arrival, x: Outside) -> ReplicaModel {
    match model_decide(m, a, x) {
        Decision::Park => model_park(m, a),
        Decision::Deliver => if (x.decode)(bound_delta(a.packet.body.delta, a.detached)->0) is Some {
            model_commit(m, a, x)
        } else {
            m
        },
        _ => m,
    }
}

/// Hands the held-back packets that extend `s`'s chain back to the step, one at a
/// time, while each one merges (a merge of the packet that extends a chain is
/// what advances it; the drain stops at the first one that does not merge).
pub open spec fn model_drain(m: ReplicaModel, s: Seq<char>, x: Outside) -> ReplicaModel
    decreases u64::MAX - (m.last)(s),
{
    let i = held_index(m.held, s, next_seq((m.last)(s)));
    if i >= 0 {
        let m2 = model_step(with_held(m, m.held.remove(i)), m.held[i], x);
        if (m2.last)(s) > (m.last)(s) {
            model_drain(m2, s, x)
        } else {
            m2
        }
    } else {
        m
    }
}

/// Receiving one arrival: the step, then, after a merge, the drain of its sender's held packets.
pub open spec fn model_receive(m: ReplicaModel, a: Arrival, x: Outside) -> ReplicaModel {
    let m1 = model_step(m, a, x);
    if m1.log.len() > m.log.len() {
        model_drain(m1, src_of(a), x)
    } else {
        m1
    }
}

/// Receiving arrivals one after another.
pub open spec fn model_receive_all(m: ReplicaModel, cs: Seq<Arrival>, x: Outside) -> ReplicaModel
    decreases cs.len(),
{
    if cs.len() == 0 {
        m
    } else {
        model_receive(model_receive_all(m, cs.drop_last(), x), cs.last(), x)
    }
}

/// A fresh replica for a schema, as `AgentZkNode::new` makes it.
pub open spec fn model_init(schema: B3) -> ReplicaModel {
    ReplicaModel {
        schema,
        graph: Map::empty(),
        seen: Seq::empty(),
        last: |s: Seq<char>| 0u64,
        prev: |s: Seq<char>| None::<Seq<u8>>,
        recs: |s: Seq<char>, q: u64| None::<Seq<u8>>,
        held: Seq::empty(),
        log: Seq::empty(),
    }
}


proof fn lemma_held_index(hs: Seq<Arrival>, src: Seq<char>, seq: u64)
    ensures
        -1 <= held_index(hs, src, seq) < hs.len(),
        held_index(hs, src, seq) >= 0 ==> src_of(hs[held_index(hs, src, seq)]) == src
            && seq_of(hs[held_index(hs, src, seq)]) == seq,
        held_index(hs, src, seq) < 0 ==> forall|k: int| 0 <= k < hs.len() ==> !(src_of(#[trigger] hs[k]) == src
            && seq_of(hs[k]) == seq),
    decreases hs.len(),
{
    if hs.len() > 0 {
        lemma_held_index(hs.drop_last(), src, seq);
        if held_index(hs, src, seq) < 0 {
            assert forall|k: int| 0 <= k < hs.len() implies !(src_of(#[trigger] hs[k]) == src && seq_of(hs[k]) == seq) by {
                if k < hs.len() - 1 {
                    assert(hs[k] == hs.drop_last()[k]);
                }
            }
        }
    }
}

proof fn lemma_held_count_push(hs: Seq<Arrival>, a: Arrival, src: Seq<char>)
    ensures
        held_count(hs.push(a), src) == held_count(hs, src) + if src_of(a) == src { 1nat } else { 0nat },
{
    assert(hs.push(a).drop_last() =~= hs);
}

proof fn lemma_held_count_remove(hs: Seq<Arrival>, i: int, src: Seq<char>)
    requires
        0 <= i < hs.len(),
    ensures
        held_count(hs.remove(i), src) + if src_of(hs[i]) == src { 1nat } else { 0nat } == held_count(hs, src),
    decreases hs.len(),
{
    if i < hs.len() - 1 {
        assert(hs.remove(i).drop_last() =~= hs.drop_last().remove(i));
        lemma_held_count_remove(hs.drop_last(), i, src);
    } else {
        assert(hs.remove(i) =~= hs.drop_last());
    }
}

/// How many arrivals of `s` a list holds.
pub open spec fn count_src(cs: Seq<Arrival>, s: Seq<char>) -> nat
    decreases cs.len(),
{
    if cs.len() == 0 {
        0
    } else {
        count_src(cs.drop_last(), s) + if src_of(cs.last()) == s { 1nat } else { 0nat }
    }
}

proof fn lemma_count_src_take(cs: Seq<Arrival>, i: int, s: Seq<char>)
    requires
        0 <= i <= cs.len(),
    ensures
        count_src(cs.take(i), s) <= count_src(cs, s),
    decreases cs.len() - i,
{
    if i < cs.len() {
        lemma_count_src_take(cs, i + 1, s);
        assert(cs.take(i + 1).drop_last() =~= cs.take(i));
    } else {
        assert(cs.take(i) =~= cs);
    }
}

/// The packets a law is stated for carry sequence numbers from 1 below the top,
/// and are told apart by their (sender, sequence number) and by their content hash.
pub open spec fn arrivals_ok(aa: Set<Arrival>, x: Outside) -> bool {
    &&& forall|a: Arrival| #[trigger] aa.contains(a) ==> 1 <= seq_of(a) < u64::MAX
    &&& forall|a: Arrival, b: Arrival|
        #![trigger aa.contains(a), aa.contains(b)]
        aa.contains(a) && aa.contains(b) && src_of(a) == src_of(b) && seq_of(a) == seq_of(b) ==> a == b
    &&& forall|a: Arrival, b: Arrival|
        #![trigger aa.contains(a), aa.contains(b)]
        aa.contains(a) && aa.contains(b) && digest_of(x, a) == digest_of(x, b) ==> a == b
}

/// A corpus of arrivals the convergence law is stated for: `arrivals_ok`, and
/// at most `MAX_PENDING_PER_SRC` arrivals from any one sender.
pub open spec fn corpus_ok(cs: Seq<Arrival>, x: Outside) -> bool {
    &&& arrivals_ok(cs.to_set(), x)
    &&& forall|s: Seq<char>| #[trigger] count_src(cs, s) <= MAX_PENDING_PER_SRC
}

/// The checks that depend on the packet alone and run before the chain checks:
/// the signature under the sender's registered key, the sender binding, the
/// schema and the size cap.
pub open spec fn early_ok(x: Outside, sch: B3, a: Arrival) -> bool {
    &&& (x.key)(a.packet.body.src, a.packet.body.key) is Some
    &&& a.packet.sig.len() == 64
    &&& ed25519_accepts((x.key)(a.packet.body.src, a.packet.body.key)->0, signing_input(a.packet.body), a.packet.sig)
    &&& a.packet.body.hlc.node_id@ == nid_of(src_of(a))
    &&& a.packet.body.schema == sch
    &&& declared_len_of(a.packet.body.delta) <= MAX_DELTA_LEN
}

/// The delta checks, and that the delta decodes.
pub open spec fn late_ok(x: Outside, a: Arrival) -> bool {
    &&& bound_delta(a.packet.body.delta, a.detached) is Some
    &&& (x.decode)(bound_delta(a.packet.body.delta, a.detached)->0) is Some
}

/// Whether `a` names its predecessor in `aa` (none for sequence number 1).
pub open spec fn links(aa: Set<Arrival>, x: Outside, a: Arrival) -> bool {
    if seq_of(a) == 1 {
        a.packet.body.prev is None
    } else {
        exists|b: Arrival|
            #![trigger aa.contains(b)]
            aa.contains(b) && src_of(b) == src_of(a) && seq_of(b) + 1 == seq_of(a) && opt_view(a.packet.body.prev)
                == Some(digest_of(x, b))
    }
}

/// Whether `aa` holds a packet of `s` with sequence number `j` that passes every
/// check and names its predecessor.
pub open spec fn good(aa: Set<Arrival>, x: Outside, sch: B3, s: Seq<char>, j: u64) -> bool {
    exists|a: Arrival|
        #![trigger aa.contains(a)]
        aa.contains(a) && src_of(a) == s && seq_of(a) == j && early_ok(x, sch, a) && late_ok(x, a) && links(aa, x, a)
}

/// What holds of a replica that has received the arrivals `aa`, in every state.
pub open spec fn inv_core(m: ReplicaModel, aa: Set<Arrival>, x: Outside, sch: B3) -> bool {
    &&& m.schema == sch
    &&& forall|s: Seq<char>| #[trigger] (m.last)(s) < u64::MAX
    &&& forall|s: Seq<char>, j: u64| 1 <= j <= (m.last)(s) ==> #[trigger] good(aa, x, sch, s, j)
    &&& forall|s: Seq<char>, q: u64| #[trigger] (m.recs)(s, q) is Some <==> 1 <= q <= (m.last)(s)
    &&& forall|a: Arrival|
        aa.contains(a) && 1 <= seq_of(a) <= (m.last)(src_of(a)) ==> #[trigger] (m.recs)(src_of(a), seq_of(a))
            == Some(digest_of(x, a))
    &&& forall|s: Seq<char>| (m.last)(s) == 0 ==> #[trigger] (m.prev)(s) is None
    &&& forall|a: Arrival|
        aa.contains(a) && 1 <= seq_of(a) == (m.last)(src_of(a)) ==> #[trigger] (m.prev)(src_of(a)) == Some(
            digest_of(x, a),
        )
    &&& m.seen == digests(x, m.log)
    &&& m.graph == merge_all(Map::empty(), entries(x, m.log))
    &&& m.log.no_duplicates()
    &&& forall|a: Arrival| #[trigger] m.log.contains(a) <==> (aa.contains(a) && 1 <= seq_of(a) <= (m.last)(src_of(a)))
    &&& forall|k1: int, k2: int|
        0 <= k1 < k2 < m.held.len() ==> !(src_of(#[trigger] m.held[k1]) == src_of(#[trigger] m.held[k2]) && seq_of(
            m.held[k1],
        ) == seq_of(m.held[k2]))
    &&& forall|k: int| 0 <= k < m.held.len() ==> aa.contains(#[trigger] m.held[k]) && early_ok(x, sch, m.held[k])
}

/// Each sender's packets come in the log in increasing sequence number order.
pub open spec fn log_ordered(log: Seq<Arrival>) -> bool {
    forall|i: int, j: int|
        0 <= i < j < log.len() && src_of(#[trigger] log[i]) == src_of(#[trigger] log[j]) ==> seq_of(log[i]) < seq_of(log[j])
}

/// Between receive steps: no sender's next packet is left unmerged, and every
/// packet past the next one is held back.
pub open spec fn inv(m: ReplicaModel, aa: Set<Arrival>, x: Outside, sch: B3) -> bool {
    &&& inv_core(m, aa, x, sch)
    &&& forall|s: Seq<char>| !good(aa, x, sch, s, next_seq(#[trigger] (m.last)(s)))
    &&& forall|k: int| 0 <= k < m.held.len() ==> seq_of(#[trigger] m.held[k]) > next_seq((m.last)(src_of(m.held[k])))
    &&& forall|a: Arrival|
        aa.contains(a) && early_ok(x, sch, a) && seq_of(a) > next_seq((m.last)(src_of(a))) ==> #[trigger] m.held.contains(a)
}

/// While `s0`'s held packets are drained: as `inv`, except that `s0`'s next
/// packet may still be held rather than merged.
pub open spec fn dinv(m: ReplicaModel, aa: Set<Arrival>, x: Outside, sch: B3, s0: Seq<char>) -> bool {
    &&& inv_core(m, aa, x, sch)
    &&& forall|s: Seq<char>| s != s0 ==> !good(aa, x, sch, s, next_seq(#[trigger] (m.last)(s)))
    &&& forall|k: int|
        0 <= k < m.held.len() ==> if src_of(#[trigger] m.held[k]) == s0 {
            seq_of(m.held[k]) > (m.last)(s0)
        } else {
            seq_of(m.held[k]) > next_seq((m.last)(src_of(m.held[k])))
        }
    &&& forall|a: Arrival|
        aa.contains(a) && early_ok(x, sch, a) && (if src_of(a) == s0 {
            seq_of(a) > (m.last)(s0)
        } else {
            seq_of(a) > next_seq((m.last)(src_of(a)))
        }) ==> #[trigger] m.held.contains(a)
}

/// No sender has more packets held back than it has sent.
pub open spec fn counted(m: ReplicaModel, rcv: Seq<Arrival>) -> bool {
    forall|s: Seq<char>| #[trigger] held_count(m.held, s) <= count_src(rcv, s)
}


proof fn lemma_links_grow(aa: Set<Arrival>, a: Arrival, x: Outside, w: Arrival)
    requires
        links(aa, x, w),
    ensures
        links(aa.insert(a), x, w),
{
    if seq_of(w) != 1 {
        let b = choose|b: Arrival|
            #![trigger aa.contains(b)]
            aa.contains(b) && src_of(b) == src_of(w) && seq_of(b) + 1 == seq_of(w) && opt_view(w.packet.body.prev)
                == Some(digest_of(x, b));
        assert(aa.insert(a).contains(b));
    }
}

proof fn lemma_good_grow(aa: Set<Arrival>, a: Arrival, x: Outside, sch: B3, s: Seq<char>, j: u64)
    requires
        good(aa, x, sch, s, j),
    ensures
        good(aa.insert(a), x, sch, s, j),
{
    let w = choose|w: Arrival|
        #![trigger aa.contains(w)]
        aa.contains(w) && src_of(w) == s && seq_of(w) == j && early_ok(x, sch, w) && late_ok(x, w) && links(aa, x, w);
    lemma_links_grow(aa, a, x, w);
    assert(aa.insert(a).contains(w));
}

/// Adding an arrival changes whether `s`'s packet `j` is good only where the
/// arrival is that packet or its predecessor.
proof fn lemma_good_other(aa: Set<Arrival>, a: Arrival, x: Outside, sch: B3, s: Seq<char>, j: u64)
    requires
        !(src_of(a) == s && (seq_of(a) == j || seq_of(a) + 1 == j)),
    ensures
        good(aa.insert(a), x, sch, s, j) == good(aa, x, sch, s, j),
{
    let bb = aa.insert(a);
    if good(aa, x, sch, s, j) {
        lemma_good_grow(aa, a, x, sch, s, j);
    }
    if good(bb, x, sch, s, j) {
        let w = choose|w: Arrival|
            #![trigger bb.contains(w)]
            bb.contains(w) && src_of(w) == s && seq_of(w) == j && early_ok(x, sch, w) && late_ok(x, w) && links(bb, x, w);
        assert(aa.contains(w));
        if seq_of(w) != 1 {
            let b = choose|b: Arrival|
                #![trigger bb.contains(b)]
                bb.contains(b) && src_of(b) == src_of(w) && seq_of(b) + 1 == seq_of(w) && opt_view(w.packet.body.prev)
                    == Some(digest_of(x, b));
            assert(aa.contains(b));
            assert(links(aa, x, w));
        }
        assert(good(aa, x, sch, s, j));
    }
}

/// At a packet that extends its sender's chain, the chain check passes exactly
/// when the packet names its predecessor.
proof fn lemma_chain_check(m: ReplicaModel, aa: Set<Arrival>, x: Outside, sch: B3, a: Arrival)
    requires
        inv_core(m, aa, x, sch),
        arrivals_ok(aa, x),
        seq_of(a) == next_seq((m.last)(src_of(a))),
    ensures
        !(opt_view(a.packet.body.prev) != (m.prev)(src_of(a)) && !(seq_of(a) == 1 && a.packet.body.prev is None))
            == links(aa, x, a),
{
    let s = src_of(a);
    let last = (m.last)(s);
    assert(last < u64::MAX);
    if last == 0 {
        assert((m.prev)(s) is None);
    } else {
        assert(good(aa, x, sch, s, last));
        let c = choose|c: Arrival|
            #![trigger aa.contains(c)]
            aa.contains(c) && src_of(c) == s && seq_of(c) == last && early_ok(x, sch, c) && late_ok(x, c) && links(aa, x, c);
        assert((m.prev)(src_of(c)) == Some(digest_of(x, c)));
        if links(aa, x, a) {
            let b = choose|b: Arrival|
                #![trigger aa.contains(b)]
                aa.contains(b) && src_of(b) == src_of(a) && seq_of(b) + 1 == seq_of(a) && opt_view(a.packet.body.prev)
                    == Some(digest_of(x, b));
            assert(b == c);
        }
        if opt_view(a.packet.body.prev) == (m.prev)(s) {
            assert(aa.contains(c));
        }
    }
}

/// A packet past its sender's last merged one was not merged, so its content hash is unseen.
proof fn lemma_not_seen(m: ReplicaModel, aa: Set<Arrival>, x: Outside, sch: B3, a: Arrival)
    requires
        inv_core(m, aa, x, sch),
        arrivals_ok(aa, x),
        aa.contains(a),
        seq_of(a) > (m.last)(src_of(a)),
    ensures
        !m.seen.contains(digest_of(x, a)),
{
    if m.seen.contains(digest_of(x, a)) {
        let k = choose|k: int| 0 <= k < m.seen.len() && m.seen[k] == digest_of(x, a);
        let b = m.log[k];
        assert(m.log.contains(b));
        assert(aa.contains(b));
        assert(digests(x, m.log)[k] == digest_of(x, b));
        assert(b == a);
    }
}


/// A good packet that extends its sender's chain is delivered and merged, and
/// the replica is then ready for the drain of that sender's held packets.
proof fn lemma_commit(m: ReplicaModel, aa: Set<Arrival>, x: Outside, sch: B3, a: Arrival)
    requires
        inv_core(m, aa, x, sch),
        arrivals_ok(aa, x),
        aa.contains(a),
        early_ok(x, sch, a),
        late_ok(x, a),
        links(aa, x, a),
        seq_of(a) == next_seq((m.last)(src_of(a))),
        forall|s: Seq<char>| s != src_of(a) ==> !good(aa, x, sch, s, next_seq(#[trigger] (m.last)(s))),
        forall|k: int| 0 <= k < m.held.len() ==> seq_of(#[trigger] m.held[k]) > next_seq((m.last)(src_of(m.held[k]))),
        forall|b: Arrival|
            aa.contains(b) && early_ok(x, sch, b) && seq_of(b) > next_seq((m.last)(src_of(b))) ==> #[trigger] m.held.contains(b),
    ensures
        model_decide(m, a, x) is Deliver,
        (x.decode)(bound_delta(a.packet.body.delta, a.detached)->0) is Some,
        model_step(m, a, x) == model_commit(m, a, x),
        dinv(model_commit(m, a, x), aa, x, sch, src_of(a)),
        model_commit(m, a, x).held == m.held,
        (model_commit(m, a, x).last)(src_of(a)) == seq_of(a),
        model_commit(m, a, x).log.len() == m.log.len() + 1,
{
    let s = src_of(a);
    let seq = seq_of(a);
    let last = (m.last)(s);
    let h = digest_of(x, a);
    assert(last < u64::MAX);
    assert(seq == last + 1);
    lemma_not_seen(m, aa, x, sch, a);
    lemma_chain_check(m, aa, x, sch, a);
    assert((m.recs)(s, seq) is None);
    assert(model_decide(m, a, x) is Deliver);
    let m2 = model_commit(m, a, x);
    assert(!m.log.contains(a));
    // the chain
    assert forall|s2: Seq<char>| #[trigger] (m2.last)(s2) < u64::MAX by {}
    assert forall|s2: Seq<char>, j: u64| 1 <= j <= (m2.last)(s2) implies #[trigger] good(aa, x, sch, s2, j) by {
        if s2 == s && j == seq {
            assert(aa.contains(a));
        } else {
            assert(1 <= j <= (m.last)(s2));
        }
    }
    assert forall|s2: Seq<char>, q: u64| #[trigger] (m2.recs)(s2, q) is Some <==> 1 <= q <= (m2.last)(s2) by {
        if !(s2 == s && q == seq) {
            assert((m.recs)(s2, q) is Some <==> 1 <= q <= (m.last)(s2));
        }
    }
    assert forall|b: Arrival|
        aa.contains(b) && 1 <= seq_of(b) <= (m2.last)(src_of(b)) implies #[trigger] (m2.recs)(src_of(b), seq_of(b))
            == Some(digest_of(x, b)) by {
        if src_of(b) == s && seq_of(b) == seq {
            assert(b == a);
        } else {
            assert(1 <= seq_of(b) <= (m.last)(src_of(b)));
            assert((m.recs)(src_of(b), seq_of(b)) == Some(digest_of(x, b)));
        }
    }
    assert forall|s2: Seq<char>| (m2.last)(s2) == 0 implies #[trigger] (m2.prev)(s2) is None by {
        assert((m.last)(s2) == 0 ==> (m.prev)(s2) is None);
    }
    assert forall|b: Arrival|
        aa.contains(b) && 1 <= seq_of(b) == (m2.last)(src_of(b)) implies #[trigger] (m2.prev)(src_of(b)) == Some(
            digest_of(x, b),
        ) by {
        if src_of(b) == s {
            assert(b == a);
        } else {
            assert((m.prev)(src_of(b)) == Some(digest_of(x, b)));
        }
    }
    // the log
    assert(digests(x, m.log.push(a)) =~= digests(x, m.log).push(h));
    assert(entries(x, m.log.push(a)) =~= entries(x, m.log).push((delta_of(x, a), ctx_of(a.packet.body))));
    assert(entries(x, m.log.push(a)).drop_last() =~= entries(x, m.log));
    assert(m2.graph == merge_all(Map::empty(), entries(x, m2.log)));
    assert(m2.log.no_duplicates()) by {
        assert forall|i: int, j: int| 0 <= i < m2.log.len() && 0 <= j < m2.log.len() && i != j implies m2.log[i]
            != m2.log[j] by {
            if i < m.log.len() && j < m.log.len() {
            } else if i < m.log.len() {
                assert(m.log.contains(m.log[i]));
            } else {
                assert(m.log.contains(m.log[j]));
            }
        }
    }
    assert forall|b: Arrival| #[trigger] m2.log.contains(b) <==> (aa.contains(b) && 1 <= seq_of(b) <= (m2.last)(src_of(b))) by {
        if b != a {
            assert(m2.log.contains(b) <==> m.log.contains(b)) by {
                if m2.log.contains(b) {
                    let k = choose|k: int| 0 <= k < m2.log.len() && m2.log[k] == b;
                    assert(k < m.log.len());
                    assert(m.log[k] == b);
                }
                if m.log.contains(b) {
                    let k = choose|k: int| 0 <= k < m.log.len() && m.log[k] == b;
                    assert(m2.log[k] == b);
                }
            }
            assert(m.log.contains(b) <==> (aa.contains(b) && 1 <= seq_of(b) <= (m.last)(src_of(b))));
            if src_of(b) == s && aa.contains(b) && seq_of(b) == seq {
                assert(b == a);
            }
        } else {
            assert(m2.log[m.log.len() as int] == a);
        }
    }
    assert(inv_core(m2, aa, x, sch));
    assert forall|k: int|
        0 <= k < m2.held.len() implies if src_of(#[trigger] m2.held[k]) == s {
            seq_of(m2.held[k]) > (m2.last)(s)
        } else {
            seq_of(m2.held[k]) > next_seq((m2.last)(src_of(m2.held[k])))
        } by {
        assert(seq_of(m.held[k]) > next_seq((m.last)(src_of(m.held[k]))));
    }
    assert forall|b: Arrival|
        aa.contains(b) && early_ok(x, sch, b) && (if src_of(b) == s {
            seq_of(b) > (m2.last)(s)
        } else {
            seq_of(b) > next_seq((m2.last)(src_of(b)))
        }) implies #[trigger] m2.held.contains(b) by {
        assert(seq_of(b) > next_seq((m.last)(src_of(b))));
    }
    assert forall|s2: Seq<char>| s2 != s implies !good(aa, x, sch, s2, next_seq(#[trigger] (m2.last)(s2))) by {
        assert(!good(aa, x, sch, s2, next_seq((m.last)(s2))));
    }
}


proof fn lemma_remove_held(m: ReplicaModel, aa: Set<Arrival>, x: Outside, sch: B3, i: int)
    requires
        inv_core(m, aa, x, sch),
        0 <= i < m.held.len(),
    ensures
        inv_core(with_held(m, m.held.remove(i)), aa, x, sch),
        forall|k: int|
            0 <= k < m.held.len() - 1 ==> #[trigger] m.held.remove(i)[k] == m.held[if k < i { k } else { k + 1 }],
        forall|b: Arrival| m.held.contains(b) && b != m.held[i] ==> #[trigger] m.held.remove(i).contains(b),
        forall|s: Seq<char>| #[trigger] held_count(m.held.remove(i), s) <= held_count(m.held, s),
{
    let hs = m.held.remove(i);
    assert forall|k: int| 0 <= k < m.held.len() - 1 implies #[trigger] hs[k] == m.held[if k < i { k } else { k + 1 }] by {}
    assert forall|b: Arrival| m.held.contains(b) && b != m.held[i] implies #[trigger] hs.contains(b) by {
        let k = choose|k: int| 0 <= k < m.held.len() && m.held[k] == b;
        if k < i {
            assert(hs[k] == b);
        } else {
            assert(hs[k - 1] == b);
        }
    }
    assert forall|k1: int, k2: int|
        0 <= k1 < k2 < hs.len() implies !(src_of(#[trigger] hs[k1]) == src_of(#[trigger] hs[k2]) && seq_of(hs[k1])
            == seq_of(hs[k2])) by {
        let j1 = if k1 < i { k1 } else { k1 + 1 };
        let j2 = if k2 < i { k2 } else { k2 + 1 };
        assert(hs[k1] == m.held[j1]);
        assert(hs[k2] == m.held[j2]);
        assert(j1 < j2);
    }
    assert forall|k: int| 0 <= k < hs.len() implies aa.contains(#[trigger] hs[k]) && early_ok(x, sch, hs[k]) by {
        let j = if k < i { k } else { k + 1 };
        assert(hs[k] == m.held[j]);
    }
    assert forall|s: Seq<char>| #[trigger] held_count(hs, s) <= held_count(m.held, s) by {
        lemma_held_count_remove(m.held, i, s);
    }
}

/// Draining a sender's held packets ends with no good packet left behind.
proof fn lemma_drain(m: ReplicaModel, aa: Set<Arrival>, rcv: Seq<Arrival>, x: Outside, sch: B3, s: Seq<char>)
    requires
        dinv(m, aa, x, sch, s),
        arrivals_ok(aa, x),
        counted(m, rcv),
    ensures
        inv(model_drain(m, s, x), aa, x, sch),
        counted(model_drain(m, s, x), rcv),
    decreases u64::MAX - (m.last)(s),
{
    let last = (m.last)(s);
    let next = next_seq(last);
    assert(last < u64::MAX);
    let i = held_index(m.held, s, next);
    lemma_held_index(m.held, s, next);
    if i < 0 {
        assert(model_drain(m, s, x) == m);
        assert forall|s2: Seq<char>| !good(aa, x, sch, s2, next_seq(#[trigger] (m.last)(s2))) by {
            if s2 == s && good(aa, x, sch, s2, next_seq((m.last)(s2))) {
                let w = choose|w: Arrival|
                    #![trigger aa.contains(w)]
                    aa.contains(w) && src_of(w) == s && seq_of(w) == next && early_ok(x, sch, w) && late_ok(x, w) && links(aa, x, w);
                assert(m.held.contains(w));
                let k = choose|k: int| 0 <= k < m.held.len() && m.held[k] == w;
                assert(!(src_of(m.held[k]) == s && seq_of(m.held[k]) == next));
            }
        }
        assert forall|k: int| 0 <= k < m.held.len() implies seq_of(#[trigger] m.held[k]) > next_seq((m.last)(src_of(m.held[k]))) by {
            if src_of(m.held[k]) == s {
                assert(!(src_of(m.held[k]) == s && seq_of(m.held[k]) == next));
            }
        }
        assert forall|b: Arrival|
            aa.contains(b) && early_ok(x, sch, b) && seq_of(b) > next_seq((m.last)(src_of(b))) implies #[trigger] m.held.contains(b) by {
        }
    } else {
        let e = m.held[i];
        let hs = m.held.remove(i);
        let m1 = with_held(m, hs);
        lemma_remove_held(m, aa, x, sch, i);
        assert(aa.contains(e) && early_ok(x, sch, e));
        assert(src_of(e) == s && seq_of(e) == next);
        // what the first held entries promise after the removal
        assert forall|k: int| 0 <= k < hs.len() implies seq_of(#[trigger] hs[k]) > next_seq((m1.last)(src_of(hs[k]))) by {
            let j = if k < i { k } else { k + 1 };
            assert(hs[k] == m.held[j]);
            if src_of(m.held[j]) == s {
                assert(seq_of(m.held[j]) != next);
            }
        }
        assert forall|b: Arrival|
            aa.contains(b) && early_ok(x, sch, b) && seq_of(b) > next_seq((m1.last)(src_of(b))) implies #[trigger] hs.contains(b) by {
            assert(m.held.contains(b));
            assert(b != e);
        }
        assert forall|s2: Seq<char>| s2 != s implies !good(aa, x, sch, s2, next_seq(#[trigger] (m1.last)(s2))) by {
            assert(!good(aa, x, sch, s2, next_seq((m.last)(s2))));
        }
        assert forall|s2: Seq<char>| #[trigger] held_count(m1.held, s2) <= count_src(rcv, s2) by {
            assert(held_count(m.held, s2) <= count_src(rcv, s2));
        }
        lemma_not_seen(m1, aa, x, sch, e);
        lemma_chain_check(m1, aa, x, sch, e);
        assert((m1.recs)(s, next) is None);
        if late_ok(x, e) && links(aa, x, e) {
            lemma_commit(m1, aa, x, sch, e);
            let m2 = model_commit(m1, e, x);
            assert(model_drain(m, s, x) == model_drain(m2, s, x));
            lemma_drain(m2, aa, rcv, x, sch, s);
        } else {
            assert(model_step(m1, e, x) == m1);
            assert(model_drain(m, s, x) == m1);
            assert forall|s2: Seq<char>| !good(aa, x, sch, s2, next_seq(#[trigger] (m1.last)(s2))) by {
                if s2 == s && good(aa, x, sch, s2, next_seq((m1.last)(s2))) {
                    let w = choose|w: Arrival|
                        #![trigger aa.contains(w)]
                        aa.contains(w) && src_of(w) == s && seq_of(w) == next && early_ok(x, sch, w) && late_ok(x, w) && links(aa, x, w);
                    assert(w == e);
                }
            }
        }
    }
}


proof fn lemma_inv_core_grow(m: ReplicaModel, aa: Set<Arrival>, x: Outside, sch: B3, a: Arrival)
    requires
        inv_core(m, aa, x, sch),
        !aa.contains(a),
        seq_of(a) > (m.last)(src_of(a)),
    ensures
        inv_core(m, aa.insert(a), x, sch),
{
    let bb = aa.insert(a);
    assert forall|s: Seq<char>, j: u64| 1 <= j <= (m.last)(s) implies #[trigger] good(bb, x, sch, s, j) by {
        assert(good(aa, x, sch, s, j));
        lemma_good_grow(aa, a, x, sch, s, j);
    }
    assert forall|b: Arrival|
        bb.contains(b) && 1 <= seq_of(b) <= (m.last)(src_of(b)) implies #[trigger] (m.recs)(src_of(b), seq_of(b))
            == Some(digest_of(x, b)) by {
        assert(aa.contains(b));
    }
    assert forall|b: Arrival|
        bb.contains(b) && 1 <= seq_of(b) == (m.last)(src_of(b)) implies #[trigger] (m.prev)(src_of(b)) == Some(
            digest_of(x, b),
        ) by {
        assert(aa.contains(b));
    }
    assert forall|b: Arrival| #[trigger] m.log.contains(b) <==> (bb.contains(b) && 1 <= seq_of(b) <= (m.last)(src_of(b))) by {
        assert(m.log.contains(b) <==> (aa.contains(b) && 1 <= seq_of(b) <= (m.last)(src_of(b))));
    }
    assert forall|k: int| 0 <= k < m.held.len() implies bb.contains(#[trigger] m.held[k]) && early_ok(x, sch, m.held[k]) by {
        assert(aa.contains(m.held[k]));
    }
}

/// After a new arrival that does not merge at once, no sender's next packet is good.
proof fn lemma_stuck_after(m: ReplicaModel, aa: Set<Arrival>, x: Outside, sch: B3, a: Arrival)
    requires
        inv(m, aa, x, sch),
        arrivals_ok(aa.insert(a), x),
        !aa.contains(a),
        seq_of(a) > (m.last)(src_of(a)),
        !(seq_of(a) == next_seq((m.last)(src_of(a))) && early_ok(x, sch, a) && late_ok(x, a) && links(aa.insert(a), x, a)),
    ensures
        forall|s: Seq<char>| !good(aa.insert(a), x, sch, s, next_seq(#[trigger] (m.last)(s))),
{
    let bb = aa.insert(a);
    assert forall|s: Seq<char>| !good(bb, x, sch, s, next_seq(#[trigger] (m.last)(s))) by {
        let j = next_seq((m.last)(s));
        assert(!good(aa, x, sch, s, j));
        if src_of(a) == s && seq_of(a) == j {
            if good(bb, x, sch, s, j) {
                let w = choose|w: Arrival|
                    #![trigger bb.contains(w)]
                    bb.contains(w) && src_of(w) == s && seq_of(w) == j && early_ok(x, sch, w) && late_ok(x, w) && links(bb, x, w);
                assert(bb.contains(a));
                assert(w == a);
            }
        } else {
            assert((m.last)(s) < u64::MAX);
            lemma_good_other(aa, a, x, sch, s, j);
        }
    }
}

proof fn lemma_count_src_push(rcv: Seq<Arrival>, a: Arrival, s: Seq<char>)
    ensures
        count_src(rcv.push(a), s) == count_src(rcv, s) + if src_of(a) == s { 1nat } else { 0nat },
{
    assert(rcv.push(a).drop_last() =~= rcv);
}

/// One receive step keeps `inv`: the replica stays in the state that the set of
/// packets received so far determines.
proof fn lemma_receive(m: ReplicaModel, rcv: Seq<Arrival>, a: Arrival, x: Outside, sch: B3)
    requires
        inv(m, rcv.to_set(), x, sch),
        counted(m, rcv),
        arrivals_ok(rcv.push(a).to_set(), x),
        forall|s: Seq<char>| #[trigger] count_src(rcv.push(a), s) <= MAX_PENDING_PER_SRC,
    ensures
        inv(model_receive(m, a, x), rcv.push(a).to_set(), x, sch),
        counted(model_receive(m, a, x), rcv.push(a)),
{
    let aa = rcv.to_set();
    let bb = rcv.push(a).to_set();
    let s = src_of(a);
    let seq = seq_of(a);
    let last = (m.last)(s);
    let next = next_seq(last);
    assert forall|b: Arrival| #[trigger] rcv.push(a).contains(b) <==> (rcv.contains(b) || b == a) by {
        if rcv.push(a).contains(b) {
            let k = choose|k: int| 0 <= k < rcv.push(a).len() && rcv.push(a)[k] == b;
            if k < rcv.len() {
                assert(rcv[k] == b);
            }
        }
        if rcv.contains(b) {
            let k = choose|k: int| 0 <= k < rcv.len() && rcv[k] == b;
            assert(rcv.push(a)[k] == b);
        }
        if b == a {
            assert(rcv.push(a)[rcv.len() as int] == a);
        }
    }
    assert(bb =~= aa.insert(a));
    assert(bb.contains(a));
    assert(last < u64::MAX);
    assert forall|s2: Seq<char>| #[trigger] held_count(m.held, s2) <= count_src(rcv.push(a), s2) by {
        lemma_count_src_push(rcv, a, s2);
    }
    lemma_count_src_push(rcv, a, s);
    if aa.contains(a) {
        assert(bb =~= aa);
        if !m.seen.contains(digest_of(x, a)) && early_ok(x, sch, a) {
            if seq <= last {
                assert((m.recs)(src_of(a), seq_of(a)) == Some(digest_of(x, a)));
            } else if seq > next {
                assert(m.held.contains(a));
                let i = held_index(m.held, s, seq);
                lemma_held_index(m.held, s, seq);
                let k = choose|k: int| 0 <= k < m.held.len() && m.held[k] == a;
                assert(aa.contains(m.held[i]));
                assert(m.held[i] == a);
                assert(m.held.update(i, a) =~= m.held);
                assert(model_park(m, a) == m);
            } else {
                assert(seq == next);
                assert(!good(aa, x, sch, s, next));
                lemma_chain_check(m, aa, x, sch, a);
                assert((m.recs)(s, seq) is None);
            }
        }
        assert(model_step(m, a, x) == m);
        assert(model_receive(m, a, x) == m);
    } else {
        if seq <= last {
            assert(good(aa, x, sch, s, seq));
            let c = choose|c: Arrival|
                #![trigger aa.contains(c)]
                aa.contains(c) && src_of(c) == s && seq_of(c) == seq && early_ok(x, sch, c) && late_ok(x, c) && links(aa, x, c);
            assert(bb.contains(c));
            assert(c == a);
        }
        assert(seq > last);
        lemma_inv_core_grow(m, aa, x, sch, a);
        lemma_not_seen(m, bb, x, sch, a);
        assert((m.recs)(s, seq) is None);
        if !early_ok(x, sch, a) {
            assert(model_step(m, a, x) == m);
            assert(model_receive(m, a, x) == m);
            lemma_stuck_after(m, aa, x, sch, a);
            assert forall|b: Arrival|
                bb.contains(b) && early_ok(x, sch, b) && seq_of(b) > next_seq((m.last)(src_of(b))) implies #[trigger] m.held.contains(b) by {
                assert(aa.contains(b));
            }
        } else if seq > next {
            let i = held_index(m.held, s, seq);
            lemma_held_index(m.held, s, seq);
            if i >= 0 {
                assert(aa.contains(m.held[i]));
                assert(m.held[i] == a);
            }
            assert(held_count(m.held, s) < MAX_PENDING_PER_SRC);
            assert(model_decide(m, a, x) is Park);
            let hs = m.held.push(a);
            let m1 = with_held(m, hs);
            assert(model_receive(m, a, x) == m1);
            lemma_stuck_after(m, aa, x, sch, a);
            assert forall|k1: int, k2: int|
                0 <= k1 < k2 < hs.len() implies !(src_of(#[trigger] hs[k1]) == src_of(#[trigger] hs[k2]) && seq_of(hs[k1])
                    == seq_of(hs[k2])) by {
                if k2 == m.held.len() {
                    assert(hs[k1] == m.held[k1]);
                } else {
                    assert(hs[k1] == m.held[k1] && hs[k2] == m.held[k2]);
                }
            }
            assert forall|k: int| 0 <= k < hs.len() implies bb.contains(#[trigger] hs[k]) && early_ok(x, sch, hs[k]) by {
                if k < m.held.len() {
                    assert(hs[k] == m.held[k]);
                }
            }
            assert forall|k: int| 0 <= k < hs.len() implies seq_of(#[trigger] hs[k]) > next_seq((m1.last)(src_of(hs[k]))) by {
                if k < m.held.len() {
                    assert(hs[k] == m.held[k]);
                }
            }
            assert forall|b: Arrival|
                bb.contains(b) && early_ok(x, sch, b) && seq_of(b) > next_seq((m1.last)(src_of(b))) implies #[trigger] hs.contains(b) by {
                if b == a {
                    assert(hs[m.held.len() as int] == a);
                } else {
                    assert(m.held.contains(b));
                    let k = choose|k: int| 0 <= k < m.held.len() && m.held[k] == b;
                    assert(hs[k] == b);
                }
            }
            assert forall|s2: Seq<char>| #[trigger] held_count(hs, s2) <= count_src(rcv.push(a), s2) by {
                lemma_held_count_push(m.held, a, s2);
                lemma_count_src_push(rcv, a, s2);
            }
            assert(inv_core(m1, bb, x, sch));
        } else {
            assert(seq == next);
            lemma_chain_check(m, bb, x, sch, a);
            if late_ok(x, a) && links(bb, x, a) {
                assert forall|s2: Seq<char>| s2 != s implies !good(bb, x, sch, s2, next_seq(#[trigger] (m.last)(s2))) by {
                    assert(!good(aa, x, sch, s2, next_seq((m.last)(s2))));
                    lemma_good_other(aa, a, x, sch, s2, next_seq((m.last)(s2)));
                }
                assert forall|b: Arrival|
                    bb.contains(b) && early_ok(x, sch, b) && seq_of(b) > next_seq((m.last)(src_of(b))) implies #[trigger] m.held.contains(b) by {
                    assert(aa.contains(b));
                }
                lemma_commit(m, bb, x, sch, a);
                let m1 = model_commit(m, a, x);
                assert(model_receive(m, a, x) == model_drain(m1, s, x));
                lemma_drain(m1, bb, rcv.push(a), x, sch, s);
            } else {
                assert(model_step(m, a, x) == m);
                assert(model_receive(m, a, x) == m);
                lemma_stuck_after(m, aa, x, sch, a);
                assert forall|b: Arrival|
                    bb.contains(b) && early_ok(x, sch, b) && seq_of(b) > next_seq((m.last)(src_of(b))) implies #[trigger] m.held.contains(b) by {
                    assert(aa.contains(b));
                }
            }
        }
    }
}


proof fn lemma_arrivals_ok_subset(aa: Set<Arrival>, bb: Set<Arrival>, x: Outside)
    requires
        arrivals_ok(bb, x),
        forall|b: Arrival| #[trigger] aa.contains(b) ==> bb.contains(b),
    ensures
        arrivals_ok(aa, x),
{
    assert forall|a: Arrival, b: Arrival|
        aa.contains(a) && aa.contains(b) && src_of(a) == src_of(b) && seq_of(a) == seq_of(b) implies a == b by {
        assert(bb.contains(a) && bb.contains(b));
    }
    assert forall|a: Arrival, b: Arrival|
        aa.contains(a) && aa.contains(b) && digest_of(x, a) == digest_of(x, b) implies a == b by {
        assert(bb.contains(a) && bb.contains(b));
    }
}

proof fn lemma_init_inv(sch: B3, x: Outside)
    ensures
        inv(model_init(sch), Seq::<Arrival>::empty().to_set(), x, sch),
        counted(model_init(sch), Seq::<Arrival>::empty()),
{
    let m = model_init(sch);
    let aa = Seq::<Arrival>::empty().to_set();
    assert(aa =~= Set::<Arrival>::empty());
    assert(digests(x, m.log) =~= m.seen);
    assert(entries(x, m.log) =~= Seq::<(DeltaView, MergeCtx)>::empty());
    assert forall|s: Seq<char>| !good(aa, x, sch, s, next_seq(#[trigger] (m.last)(s))) by {}
    assert forall|s: Seq<char>| #[trigger] held_count(m.held, s) <= count_src(Seq::<Arrival>::empty(), s) by {}
}

/// Every prefix of a corpus leaves the replica in the state `inv` describes.
proof fn lemma_run(c: Seq<Arrival>, x: Outside, sch: B3, i: int)
    requires
        corpus_ok(c, x),
        0 <= i <= c.len(),
    ensures
        inv(model_receive_all(model_init(sch), c.take(i), x), c.take(i).to_set(), x, sch),
        counted(model_receive_all(model_init(sch), c.take(i), x), c.take(i)),
    decreases i,
{
    if i == 0 {
        assert(c.take(0) =~= Seq::<Arrival>::empty());
        lemma_init_inv(sch, x);
    } else {
        lemma_run(c, x, sch, i - 1);
        let pre = c.take(i - 1);
        assert(c.take(i).drop_last() =~= pre);
        assert(c.take(i) =~= pre.push(c[i - 1]));
        assert forall|b: Arrival| #[trigger] c.take(i).to_set().contains(b) implies c.to_set().contains(b) by {
            let k = choose|k: int| 0 <= k < c.take(i).len() && c.take(i)[k] == b;
            assert(c[k] == b);
        }
        lemma_arrivals_ok_subset(c.take(i).to_set(), c.to_set(), x);
        assert forall|s: Seq<char>| #[trigger] count_src(pre.push(c[i - 1]), s) <= MAX_PENDING_PER_SRC by {
            lemma_count_src_take(c, i, s);
        }
        lemma_receive(model_receive_all(model_init(sch), pre, x), pre, c[i - 1], x, sch);
    }
}

proof fn lemma_count_src_remove(cs: Seq<Arrival>, k: int, s: Seq<char>)
    requires
        0 <= k < cs.len(),
    ensures
        count_src(cs.remove(k), s) + if src_of(cs[k]) == s { 1nat } else { 0nat } == count_src(cs, s),
    decreases cs.len(),
{
    if k < cs.len() - 1 {
        assert(cs.remove(k).drop_last() =~= cs.drop_last().remove(k));
        lemma_count_src_remove(cs.drop_last(), k, s);
    } else {
        assert(cs.remove(k) =~= cs.drop_last());
    }
}

/// Reordering a corpus keeps each sender's count.
proof fn lemma_count_src_perm(c1: Seq<Arrival>, c2: Seq<Arrival>, s: Seq<char>)
    requires
        c1.to_multiset() == c2.to_multiset(),
    ensures
        count_src(c1, s) == count_src(c2, s),
    decreases c1.len(),
{
    broadcast use vstd::seq_lib::group_to_multiset_ensures;
    c1.to_multiset_ensures();
    c2.to_multiset_ensures();
    if c1.len() == 0 {
        assert(c2.len() == 0);
        assert(c2 =~= c1);
    } else {
        let y = c1.last();
        let rest1 = c1.drop_last();
        assert(c1 =~= rest1.push(y));
        rest1.to_multiset_ensures();
        assert(c1.to_multiset().count(y) > 0);
        assert(c2.contains(y));
        let k = choose|k: int| 0 <= k < c2.len() && c2[k] == y;
        let rest2 = c2.remove(k);
        assert(rest2.to_multiset() =~= c2.to_multiset().remove(y));
        assert(rest1.to_multiset() =~= c1.to_multiset().remove(y));
        lemma_count_src_perm(rest1, rest2, s);
        lemma_count_src_remove(c2, k, s);
    }
}

/// Merging the same set of arrivals, each once, in any order gives the same graph.
proof fn lemma_merge_same_members(g: Map<Seq<char>, EntityView>, x: Outside, l1: Seq<Arrival>, l2: Seq<Arrival>)
    requires
        l1.no_duplicates(),
        l2.no_duplicates(),
        forall|b: Arrival| #[trigger] l1.contains(b) <==> l2.contains(b),
    ensures
        merge_all(g, entries(x, l1)) == merge_all(g, entries(x, l2)),
    decreases l1.len(),
{
    if l1.len() == 0 {
        if l2.len() > 0 {
            assert(l2.contains(l2[0]));
            assert(l1.contains(l2[0]));
            assert(false);
        }
        assert(entries(x, l1) =~= entries(x, l2));
    } else {
        let y = l1.last();
        let rest1 = l1.drop_last();
        assert(l1.contains(y));
        let k = choose|k: int| 0 <= k < l2.len() && l2[k] == y;
        let pre = l2.subrange(0, k);
        let post = l2.subrange(k + 1, l2.len() as int);
        let rest2 = pre + post;
        assert forall|b: Arrival| #[trigger] rest1.contains(b) <==> rest2.contains(b) by {
            if rest1.contains(b) {
                let j = choose|j: int| 0 <= j < rest1.len() && rest1[j] == b;
                assert(l1[j] == b);
                assert(l1.contains(b));
                let j2 = choose|j2: int| 0 <= j2 < l2.len() && l2[j2] == b;
                assert(j2 != k);
                if j2 < k {
                    assert(rest2[j2] == b);
                } else {
                    assert(rest2[j2 - 1] == b);
                }
            }
            if rest2.contains(b) {
                let j = choose|j: int| 0 <= j < rest2.len() && rest2[j] == b;
                let j2 = if j < k { j } else { j + 1 };
                assert(l2[j2] == b);
                assert(l2.contains(b));
                assert(l2[j2] != l2[k]);
                assert(b != y);
                assert(l1.contains(b));
                let j1 = choose|j1: int| 0 <= j1 < l1.len() && l1[j1] == b;
                assert(j1 != l1.len() - 1);
                assert(rest1[j1] == b);
            }
        }
        assert(rest2.no_duplicates()) by {
            assert forall|i: int, j: int| 0 <= i < rest2.len() && 0 <= j < rest2.len() && i != j implies rest2[i] != rest2[j] by {
                let i2 = if i < k { i } else { i + 1 };
                let j2 = if j < k { j } else { j + 1 };
                assert(rest2[i] == l2[i2] && rest2[j] == l2[j2]);
            }
        }
        lemma_merge_same_members(g, x, rest1, rest2);
        let e = (delta_of(x, y), ctx_of(y.packet.body));
        assert(entries(x, l1) =~= entries(x, rest1).push(e));
        assert(entries(x, l1).drop_last() =~= entries(x, rest1));
        assert(entries(x, l2) =~= (entries(x, pre) + seq![e]) + entries(x, post));
        assert(entries(x, rest2) =~= entries(x, pre) + entries(x, post));
        lemma_merge_all_append(g, entries(x, pre) + seq![e], entries(x, post));
        assert((entries(x, pre) + seq![e]).drop_last() =~= entries(x, pre));
        lemma_merge_moves_past(merge_all(g, entries(x, pre)), e, entries(x, post));
        lemma_merge_all_append(g, entries(x, pre), entries(x, post));
    }
}

/// The replica's last merged sequence numbers are fixed by the packets received.
proof fn lemma_last_unique(m1: ReplicaModel, m2: ReplicaModel, aa: Set<Arrival>, x: Outside, sch: B3, s: Seq<char>)
    requires
        inv(m1, aa, x, sch),
        inv(m2, aa, x, sch),
    ensures
        (m1.last)(s) == (m2.last)(s),
{
    let k1 = (m1.last)(s);
    let k2 = (m2.last)(s);
    assert(k1 < u64::MAX && k2 < u64::MAX);
    if k1 < k2 {
        assert(good(aa, x, sch, s, (k1 + 1) as u64));
        assert(!good(aa, x, sch, s, next_seq(k1)));
    } else if k2 < k1 {
        assert(good(aa, x, sch, s, (k2 + 1) as u64));
        assert(!good(aa, x, sch, s, next_seq(k2)));
    }
}

/// Convergence of replicas at the packet level: two replicas with the same
/// schema that receive the same packets (each with its detached delta body), in
/// any order, hold the same graph, have merged the same packets, and stand at
/// the same sequence number for every sender. Duplicates, packets held back
/// until their predecessors arrive, and refused packets (those of unknown
/// senders and badly signed ones among them) are all covered. The packets carry sequence numbers from 1 below
/// the top, are told apart by their (sender, sequence number) and by their
/// content hash, and no sender sends more than `MAX_PENDING_PER_SRC` of them.
pub proof fn lemma_receive_order_free(sch: B3, x: Outside, c1: Seq<Arrival>, c2: Seq<Arrival>)
    requires
        corpus_ok(c1, x),
        c1.to_multiset() == c2.to_multiset(),
    ensures
        model_receive_all(model_init(sch), c1, x).graph == model_receive_all(model_init(sch), c2, x).graph,
        forall|a: Arrival|
            #[trigger] model_receive_all(model_init(sch), c1, x).log.contains(a) <==> model_receive_all(
                model_init(sch),
                c2,
                x,
            ).log.contains(a),
        forall|s: Seq<char>|
            #[trigger] (model_receive_all(model_init(sch), c1, x).last)(s) == (model_receive_all(model_init(sch), c2, x).last)(s),
{
    broadcast use vstd::seq_lib::group_to_multiset_ensures;
    c1.to_multiset_ensures();
    c2.to_multiset_ensures();
    let aa = c1.to_set();
    assert forall|a: Arrival| #[trigger] c2.to_set().contains(a) <==> aa.contains(a) by {
        assert(c1.contains(a) <==> c1.to_multiset().count(a) > 0);
        assert(c2.contains(a) <==> c2.to_multiset().count(a) > 0);
    }
    assert(c2.to_set() =~= aa);
    assert forall|s: Seq<char>| #[trigger] count_src(c2, s) <= MAX_PENDING_PER_SRC by {
        lemma_count_src_perm(c1, c2, s);
        assert(count_src(c1, s) <= MAX_PENDING_PER_SRC);
    }
    assert(corpus_ok(c2, x));
    lemma_run(c1, x, sch, c1.len() as int);
    lemma_run(c2, x, sch, c2.len() as int);
    assert(c1.take(c1.len() as int) =~= c1);
    assert(c2.take(c2.len() as int) =~= c2);
    let m1 = model_receive_all(model_init(sch), c1, x);
    let m2 = model_receive_all(model_init(sch), c2, x);
    assert forall|s: Seq<char>| #[trigger] (m1.last)(s) == (m2.last)(s) by {
        lemma_last_unique(m1, m2, aa, x, sch, s);
    }
    assert forall|a: Arrival| #[trigger] m1.log.contains(a) <==> m2.log.contains(a) by {
        assert((m1.last)(src_of(a)) == (m2.last)(src_of(a)));
    }
    lemma_merge_same_members(Map::empty(), x, m1.log, m2.log);
}


/// The arrival a held-back entry of a node stands for.
pub open spec fn arrival_of(e: Parked) -> Arrival {
    Arrival { packet: e.packet@, detached: opt_bytes(e.detached) }
}

/// A node's held-back entries as arrivals.
pub open spec fn held_of(ps: Seq<Parked>) -> Seq<Arrival> {
    ps.map_values(|e: Parked| arrival_of(e))
}

/// The content hash of a record, if there is one.
pub open spec fn rec_hash(r: Option<crate::node::SeqRecord>) -> Option<Seq<u8>> {
    match r {
        Some(r) => Some(r.hash@),
        None => None,
    }
}

/// Whether `m` is how the receive model sees node `n`: its schema, graph, seen
/// hashes, chains and held-back packets.
pub open spec fn models(m: ReplicaModel, n: &AgentZkNode) -> bool {
    &&& m.schema == n.schema_hash
    &&& m.graph == n.graph@
    &&& m.seen == seen_views(n)
    &&& forall|s: Seq<char>| #[trigger] (m.last)(s) == last_seq_of(n.chains@, s)
    &&& forall|s: Seq<char>| #[trigger] (m.prev)(s) == opt_view(expected_prev(n.chains@, s))
    &&& forall|s: Seq<char>, q: u64| #[trigger] (m.recs)(s, q) == rec_hash(record_of(n.chains@, s, q))
    &&& m.held == held_of(n.pending@)
    &&& parked_keys_match(n.pending@)
}

/// Every held-back entry is filed under its packet's own sender and sequence number.
pub open spec fn parked_keys_match(ps: Seq<Parked>) -> bool {
    forall|k: int|
        0 <= k < ps.len() ==> (#[trigger] ps[k]).src@ == ps[k].packet@.body.src && ps[k].seq == ps[k].packet@.body.seq
}

proof fn lemma_held_of(ps: Seq<Parked>, s: Seq<char>, q: u64)
    requires
        parked_keys_match(ps),
    ensures
        held_count(held_of(ps), s) == parked_count(ps, s),
        held_index(held_of(ps), s, q) == parked_index(ps, s, q),
    decreases ps.len(),
{
    if ps.len() > 0 {
        assert(held_of(ps).drop_last() =~= held_of(ps.drop_last()));
        assert(ps[ps.len() - 1] == ps.last());
        assert(held_of(ps).last() == arrival_of(ps.last()));
        assert(parked_keys_match(ps.drop_last())) by {
            assert forall|k: int| 0 <= k < ps.drop_last().len() implies (#[trigger] ps.drop_last()[k]).src@
                == ps.drop_last()[k].packet@.body.src && ps.drop_last()[k].seq == ps.drop_last()[k].packet@.body.seq by {
                assert(ps.drop_last()[k] == ps[k]);
            }
        }
        lemma_held_of(ps.drop_last(), s, q);
    }
}

proof fn lemma_opt_view_injective(a: Option<B3>, b: Option<B3>)
    ensures
        (opt_view(a) == opt_view(b)) == (a == b),
{
    if let (Some(x), Some(y)) = (a, b) {
        if x@ == y@ {
            assert(x =~= y);
        }
    }
}

/// `screen` decides every packet of a known sender as the receive model's
/// checks do, given the sender's registered key.
pub proof fn lemma_decide_agrees(m: ReplicaModel, n: &AgentZkNode, p: PacketView, detached: Option<Seq<u8>>, x: Outside)
    requires
        models(m, n),
        (x.key)(p.body.src, p.body.key) is Some,
    ensures
        decide(n, p, (x.key)(p.body.src, p.body.key)->0, signing_input(p.body), detached) == model_decide(
            m,
            Arrival { packet: p, detached },
            x,
        ),
{
    lemma_held_of(n.pending@, p.body.src, p.body.seq);
    lemma_opt_view_injective(p.body.prev, expected_prev(n.chains@, p.body.src));
    assert((m.recs)(p.body.src, p.body.seq) == rec_hash(record_of(n.chains@, p.body.src, p.body.seq)));
    assert((m.last)(p.body.src) == last_seq_of(n.chains@, p.body.src));
    assert((m.prev)(p.body.src) == opt_view(expected_prev(n.chains@, p.body.src)));
}


/// What `commit` promises of a node is what the model's merge does: the node
/// after a commit of an arrival, with its content hash and decoded delta, is
/// seen as `model_commit` of the model of the node before.
pub proof fn lemma_commit_agrees(
    m: ReplicaModel,
    before: &AgentZkNode,
    after: &AgentZkNode,
    a: Arrival,
    x: Outside,
    h: B3,
    ctx: MergeCtx,
)
    requires
        models(m, before),
        h@ == digest_of(x, a),
        ctx.hlc == a.packet.body.hlc,
        ctx.tier == a.packet.body.tier,
        ctx.writer@ == nid_of(src_of(a)),
        after.graph@ == apply_delta(before.graph@, delta_of(x, a), ctx),
        after.seen@ == before.seen@.push(h),
        after.pending == before.pending,
        after.schema_hash == before.schema_hash,
        last_seq_of(after.chains@, src_of(a)) == seq_of(a),
        expected_prev(after.chains@, src_of(a)) == if seq_of(a) > 0 { Some(h) } else { None::<B3> },
        record_of(after.chains@, src_of(a), seq_of(a)) matches Some(r) && r.hash == h,
        forall|q: u64| q != seq_of(a) ==> #[trigger] record_of(after.chains@, src_of(a), q) == record_of(
            before.chains@,
            src_of(a),
            q,
        ),
        forall|s2: Seq<char>| s2 != src_of(a) ==> #[trigger] last_seq_of(after.chains@, s2) == last_seq_of(before.chains@, s2),
        forall|s2: Seq<char>| s2 != src_of(a) ==> #[trigger] expected_prev(after.chains@, s2) == expected_prev(before.chains@, s2),
        forall|s2: Seq<char>, q: u64| s2 != src_of(a) ==> #[trigger] record_of(after.chains@, s2, q) == record_of(
            before.chains@,
            s2,
            q,
        ),
    ensures
        models(model_commit(m, a, x), after),
{
    let m2 = model_commit(m, a, x);
    let w = choose|w: [u8; 8]| w@ == nid_of(src_of(a));
    assert(ctx.writer@ == nid_of(src_of(a)));
    assert(w =~= ctx.writer);
    assert(ctx_of(a.packet.body) == ctx);
    assert(seen_views(after) =~= seen_views(before).push(h@));
    assert forall|s2: Seq<char>| #[trigger] (m2.last)(s2) == last_seq_of(after.chains@, s2) by {
        if s2 != src_of(a) {
            assert((m.last)(s2) == last_seq_of(before.chains@, s2));
        }
    }
    assert forall|s2: Seq<char>| #[trigger] (m2.prev)(s2) == opt_view(expected_prev(after.chains@, s2)) by {
        if s2 != src_of(a) {
            assert((m.prev)(s2) == opt_view(expected_prev(before.chains@, s2)));
        }
    }
    assert forall|s2: Seq<char>, q: u64| #[trigger] (m2.recs)(s2, q) == rec_hash(record_of(after.chains@, s2, q)) by {
        if !(s2 == src_of(a) && q == seq_of(a)) {
            assert((m.recs)(s2, q) == rec_hash(record_of(before.chains@, s2, q)));
        }
    }
}

/// `take_parked` hands out the held packet the model's drain takes, and leaves
/// the node as the model's drain leaves it before that packet's step.
pub proof fn lemma_take_agrees(m: ReplicaModel, before: &AgentZkNode, after: &AgentZkNode, s: Seq<char>)
    requires
        models(m, before),
        parked_index(before.pending@, s, next_seq(last_seq_of(before.chains@, s))) >= 0,
        after.pending@ == before.pending@.remove(parked_index(before.pending@, s, next_seq(last_seq_of(before.chains@, s)))),
        same_core(after, before),
    ensures
        ({
            let i = parked_index(before.pending@, s, next_seq(last_seq_of(before.chains@, s)));
            &&& held_index(m.held, s, next_seq((m.last)(s))) == i
            &&& m.held[i] == arrival_of(before.pending@[i])
            &&& models(with_held(m, m.held.remove(i)), after)
        }),
{
    let i = parked_index(before.pending@, s, next_seq(last_seq_of(before.chains@, s)));
    assert((m.last)(s) == last_seq_of(before.chains@, s));
    lemma_held_of(before.pending@, s, next_seq((m.last)(s)));
    crate::node::lemma_parked_index(before.pending@, s, next_seq((m.last)(s)));
    assert(held_of(after.pending@) =~= m.held.remove(i));
    assert(seen_views(after) =~= seen_views(before));
    assert forall|k: int| 0 <= k < after.pending@.len() implies (#[trigger] after.pending@[k]).src@
        == after.pending@[k].packet@.body.src && after.pending@[k].seq == after.pending@[k].packet@.body.seq by {
        if k < i {
            assert(after.pending@[k] == before.pending@[k]);
        } else {
            assert(after.pending@[k] == before.pending@[k + 1]);
        }
    }
}

/// What `screen` promises when it holds a packet back is what the model's park does.
pub proof fn lemma_park_agrees(m: ReplicaModel, before: &AgentZkNode, after: &AgentZkNode, a: Arrival)
    requires
        models(m, before),
        same_core(after, before),
        ({
            let i = parked_index(before.pending@, src_of(a), seq_of(a));
            let at = if i >= 0 { i } else { before.pending@.len() as int };
            &&& after.pending@.len() == if i >= 0 { before.pending@.len() } else { before.pending@.len() + 1 }
            &&& forall|k: int| 0 <= k < before.pending@.len() && k != at ==> after.pending@[k] == before.pending@[k]
            &&& after.pending@[at].src@ == src_of(a)
            &&& after.pending@[at].seq == seq_of(a)
            &&& after.pending@[at].packet@ == a.packet
            &&& opt_bytes(after.pending@[at].detached) == a.detached
        }),
    ensures
        models(model_park(m, a), after),
{
    let i = parked_index(before.pending@, src_of(a), seq_of(a));
    let at = if i >= 0 { i } else { before.pending@.len() as int };
    lemma_held_of(before.pending@, src_of(a), seq_of(a));
    let hs = if i >= 0 { m.held.update(i, a) } else { m.held.push(a) };
    assert(m.held == held_of(before.pending@));
    assert(m.held.len() == before.pending@.len());
    crate::node::lemma_parked_index(before.pending@, src_of(a), seq_of(a));
    assert(held_of(after.pending@) =~= hs) by {
        assert(after.pending@[at].packet@ == a.packet);
        assert(arrival_of(after.pending@[at]) == a);
        assert(hs.len() == after.pending@.len());
        assert forall|k: int| 0 <= k < hs.len() implies held_of(after.pending@)[k] == hs[k] by {
            assert(held_of(after.pending@)[k] == arrival_of(after.pending@[k]));
            if k != at {
                assert(after.pending@[k] == before.pending@[k]);
                assert(m.held[k] == arrival_of(before.pending@[k]));
                assert(hs[k] == m.held[k]);
            } else {
                assert(hs[k] == a);
            }
        }
    }
    assert(seen_views(after) =~= seen_views(before));
    assert forall|k: int| 0 <= k < after.pending@.len() implies (#[trigger] after.pending@[k]).src@
        == after.pending@[k].packet@.body.src && after.pending@[k].seq == after.pending@[k].packet@.body.seq by {
        if k != at {
            assert(after.pending@[k] == before.pending@[k]);
        }
    }
}


/// A fresh node (as `AgentZkNode::new` makes it) is seen as the model's fresh replica.
pub proof fn lemma_init_agrees(n: &AgentZkNode, sch: B3)
    requires
        n.schema_hash == sch,
        n.graph@ == Map::<Seq<char>, EntityView>::empty(),
        n.seen@.len() == 0,
        n.chains@.len() == 0,
        n.pending@.len() == 0,
    ensures
        models(model_init(sch), n),
{
    assert(seen_views(n) =~= Seq::<Seq<u8>>::empty());
    assert(held_of(n.pending@) =~= Seq::<Arrival>::empty());
}


/// Whether the log holds a packet of `s` with sequence number `j`.
pub open spec fn logged(log: Seq<Arrival>, s: Seq<char>, j: u64) -> bool {
    exists|a: Arrival| #![trigger log.contains(a)] log.contains(a) && src_of(a) == s && seq_of(a) == j
}

/// What holds of every replica's log and chains, whatever it received, as long
/// as every packet carried a sequence number from 1.
pub open spec fn chain_inv(m: ReplicaModel, x: Outside) -> bool {
    &&& forall|s: Seq<char>, q: u64| #[trigger] (m.recs)(s, q) is Some <==> 1 <= q <= (m.last)(s)
    &&& forall|s: Seq<char>| (m.last)(s) == 0 ==> #[trigger] (m.prev)(s) is None
    &&& forall|s: Seq<char>| (m.last)(s) >= 1 ==> #[trigger] (m.prev)(s) == (m.recs)(s, (m.last)(s))
    &&& forall|a: Arrival|
        #[trigger] m.log.contains(a) ==> 1 <= seq_of(a) <= (m.last)(src_of(a)) && (m.recs)(src_of(a), seq_of(a))
            == Some(digest_of(x, a))
    &&& forall|s: Seq<char>, j: u64| 1 <= j <= (m.last)(s) ==> #[trigger] logged(m.log, s, j)
    &&& forall|a: Arrival|
        #[trigger] m.log.contains(a) ==> if seq_of(a) == 1 {
            a.packet.body.prev is None
        } else {
            opt_view(a.packet.body.prev) == (m.recs)(src_of(a), (seq_of(a) - 1) as u64)
        }
    &&& log_ordered(m.log)
    &&& forall|k: int| 0 <= k < m.held.len() ==> seq_of(#[trigger] m.held[k]) >= 1
}

proof fn lemma_chain_step(m: ReplicaModel, a: Arrival, x: Outside)
    requires
        chain_inv(m, x),
        seq_of(a) >= 1,
    ensures
        chain_inv(model_step(m, a, x), x),
{
    let d = model_decide(m, a, x);
    let s = src_of(a);
    let seq = seq_of(a);
    let last = (m.last)(s);
    if d is Park {
        let i = held_index(m.held, s, seq);
        lemma_held_index(m.held, s, seq);
        let m2 = model_park(m, a);
        assert forall|k: int| 0 <= k < m2.held.len() implies seq_of(#[trigger] m2.held[k]) >= 1 by {
            if k < m.held.len() && !(i >= 0 && k == i) {
                assert(m2.held[k] == m.held[k]);
            }
        }
    } else if d is Deliver && (x.decode)(bound_delta(a.packet.body.delta, a.detached)->0) is Some {
        assert((m.recs)(s, seq) is None);
        assert(seq > last);
        assert(last < u64::MAX);
        assert(seq == last + 1);
        let m2 = model_commit(m, a, x);
        assert(model_step(m, a, x) == m2);
        assert(!m.log.contains(a));
        assert forall|s2: Seq<char>, q: u64| #[trigger] (m2.recs)(s2, q) is Some <==> 1 <= q <= (m2.last)(s2) by {
            if !(s2 == s && q == seq) {
                assert((m.recs)(s2, q) is Some <==> 1 <= q <= (m.last)(s2));
            }
        }
        assert forall|s2: Seq<char>| (m2.last)(s2) == 0 implies #[trigger] (m2.prev)(s2) is None by {
            assert((m.last)(s2) == 0 ==> (m.prev)(s2) is None);
        }
        assert forall|s2: Seq<char>| (m2.last)(s2) >= 1 implies #[trigger] (m2.prev)(s2) == (m2.recs)(s2, (m2.last)(s2)) by {
            if s2 != s {
                assert((m.prev)(s2) == (m.recs)(s2, (m.last)(s2)));
            }
        }
        assert forall|b: Arrival|
            #[trigger] m2.log.contains(b) implies 1 <= seq_of(b) <= (m2.last)(src_of(b)) && (m2.recs)(src_of(b), seq_of(b))
                == Some(digest_of(x, b)) && if seq_of(b) == 1 {
                b.packet.body.prev is None
            } else {
                opt_view(b.packet.body.prev) == (m2.recs)(src_of(b), (seq_of(b) - 1) as u64)
            } by {
            let k = choose|k: int| 0 <= k < m2.log.len() && m2.log[k] == b;
            if k < m.log.len() {
                assert(m.log[k] == b);
                assert(m.log.contains(b));
                if seq_of(b) != 1 {
                    assert(opt_view(b.packet.body.prev) == (m.recs)(src_of(b), (seq_of(b) - 1) as u64));
                }
            } else {
                assert(b == a);
                if seq == 1 {
                    assert((m.prev)(s) is None);
                    if a.packet.body.prev is Some {
                        assert(opt_view(a.packet.body.prev) != (m.prev)(s));
                    }
                } else {
                    assert((m.prev)(s) == (m.recs)(s, last));
                }
            }
        }
        assert forall|s2: Seq<char>, j: u64| 1 <= j <= (m2.last)(s2) implies #[trigger] logged(m2.log, s2, j) by {
            if s2 == s && j == seq {
                assert(m2.log[m.log.len() as int] == a);
                assert(m2.log.contains(a));
            } else {
                assert(logged(m.log, s2, j));
                let w = choose|w: Arrival| #![trigger m.log.contains(w)] m.log.contains(w) && src_of(w) == s2 && seq_of(w) == j;
                let k = choose|k: int| 0 <= k < m.log.len() && m.log[k] == w;
                assert(m2.log[k] == w);
                assert(m2.log.contains(w));
            }
        }
        assert(log_ordered(m2.log)) by {
            assert forall|i: int, j: int|
                0 <= i < j < m2.log.len() && src_of(#[trigger] m2.log[i]) == src_of(#[trigger] m2.log[j]) implies seq_of(
                    m2.log[i],
                ) < seq_of(m2.log[j]) by {
                assert(m2.log[i] == m.log[i]);
                assert(m.log.contains(m.log[i]));
                if j < m.log.len() {
                    assert(m2.log[j] == m.log[j]);
                } else {
                    assert(m2.log[j] == a);
                }
            }
        }
    } else {
        assert(model_step(m, a, x) == m);
    }
}

proof fn lemma_chain_drain(m: ReplicaModel, s: Seq<char>, x: Outside)
    requires
        chain_inv(m, x),
    ensures
        chain_inv(model_drain(m, s, x), x),
    decreases u64::MAX - (m.last)(s),
{
    let i = held_index(m.held, s, next_seq((m.last)(s)));
    lemma_held_index(m.held, s, next_seq((m.last)(s)));
    if i >= 0 {
        let e = m.held[i];
        let hs = m.held.remove(i);
        let m1 = with_held(m, hs);
        assert forall|k: int| 0 <= k < hs.len() implies seq_of(#[trigger] hs[k]) >= 1 by {
            if k < i {
                assert(hs[k] == m.held[k]);
            } else {
                assert(hs[k] == m.held[k + 1]);
            }
        }
        assert(chain_inv(m1, x));
        lemma_chain_step(m1, e, x);
        let m2 = model_step(m1, e, x);
        if (m2.last)(s) > (m.last)(s) {
            lemma_chain_drain(m2, s, x);
        }
    }
}

proof fn lemma_chain_run(x: Outside, sch: B3, c: Seq<Arrival>)
    requires
        forall|a: Arrival| #[trigger] c.contains(a) ==> seq_of(a) >= 1,
    ensures
        chain_inv(model_receive_all(model_init(sch), c, x), x),
    decreases c.len(),
{
    if c.len() == 0 {
        let m = model_init(sch);
        assert forall|s: Seq<char>, j: u64| 1 <= j <= (m.last)(s) implies #[trigger] logged(m.log, s, j) by {}
    } else {
        let pre = c.drop_last();
        assert forall|a: Arrival| #[trigger] pre.contains(a) implies seq_of(a) >= 1 by {
            let k = choose|k: int| 0 <= k < pre.len() && pre[k] == a;
            assert(c[k] == a);
            assert(c.contains(a));
        }
        lemma_chain_run(x, sch, pre);
        let m = model_receive_all(model_init(sch), pre, x);
        let a = c.last();
        assert(c[c.len() - 1] == a);
        assert(c.contains(a));
        lemma_chain_step(m, a, x);
        let m1 = model_step(m, a, x);
        if m1.log.len() > m.log.len() {
            lemma_chain_drain(m1, src_of(a), x);
        }
    }
}

/// The chain law: whatever packets a replica receives, as long as each carries
/// a sequence number from 1, each sender's merged packets come in merge order
/// with increasing sequence numbers and are exactly its packets 1 to its last
/// merged number; the first names no predecessor, and each later one names the
/// content hash of the merged packet before it.
pub proof fn lemma_log_is_chain(sch: B3, x: Outside, c: Seq<Arrival>)
    requires
        forall|a: Arrival| #[trigger] c.contains(a) ==> seq_of(a) >= 1,
    ensures
        ({
            let m = model_receive_all(model_init(sch), c, x);
            &&& log_ordered(m.log)
            &&& forall|s: Seq<char>, j: u64| 1 <= j <= (m.last)(s) ==> #[trigger] logged(m.log, s, j)
            &&& forall|a: Arrival| #[trigger] m.log.contains(a) ==> 1 <= seq_of(a) <= (m.last)(src_of(a))
            &&& forall|a: Arrival| #[trigger] m.log.contains(a) && seq_of(a) == 1 ==> a.packet.body.prev is None
            &&& forall|a: Arrival|
                #[trigger] m.log.contains(a) && seq_of(a) > 1 ==> exists|b: Arrival|
                    #![trigger m.log.contains(b)]
                    m.log.contains(b) && src_of(b) == src_of(a) && seq_of(b) + 1 == seq_of(a) && opt_view(
                        a.packet.body.prev,
                    ) == Some(digest_of(x, b))
        }),
{
    lemma_chain_run(x, sch, c);
    let m = model_receive_all(model_init(sch), c, x);
    assert forall|a: Arrival|
        #[trigger] m.log.contains(a) && seq_of(a) > 1 implies exists|b: Arrival|
            #![trigger m.log.contains(b)]
            m.log.contains(b) && src_of(b) == src_of(a) && seq_of(b) + 1 == seq_of(a) && opt_view(a.packet.body.prev)
                == Some(digest_of(x, b)) by {
        let q = (seq_of(a) - 1) as u64;
        assert(logged(m.log, src_of(a), q));
        let b = choose|b: Arrival| #![trigger m.log.contains(b)] m.log.contains(b) && src_of(b) == src_of(a) && seq_of(b) == q;
        assert((m.recs)(src_of(b), seq_of(b)) == Some(digest_of(x, b)));
    }
}

} // verus!
