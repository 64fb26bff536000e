use std::collections::HashMap;

use agentzk_speedline::error::AgentZkError;
use agentzk_speedline::graph::{Edge, GraphState};
use agentzk_speedline::hash::{b3, B3};
use agentzk_speedline::hlc::Hlc;
use agentzk_speedline::graph::{GraphDelta, PropPatch};
use agentzk_speedline::node::{nid_for, Ack, Admission, AgentZkNode, MAX_DELTA_LEN};
use agentzk_speedline::packet::{DeltaRef, PckpPacket, SignablePacket};
use ed25519_dalek::SigningKey;

type PatchWire = (String, String, String);
type HlcWire = (u64, u32, [u8; 8]);
type EdgeWire = (String, String, String, HlcWire);

/// The postcard encoding of a delta: its patches, then its edges, each as its
/// fields in order (postcard writes a struct as its fields in order).
fn encode_delta(props: Vec<PatchWire>, edges: Vec<EdgeWire>) -> Vec<u8> {
    postcard::to_allocvec(&(props, edges)).unwrap()
}

fn decode(bytes: &[u8]) -> Result<GraphDelta, AgentZkError> {
    let (props, edges): (Vec<PatchWire>, Vec<EdgeWire>) =
        postcard::from_bytes(bytes).map_err(|e| AgentZkError::Serialization(e.to_string()))?;
    Ok(GraphDelta {
        props: props.into_iter().map(|(uid, key, value)| PropPatch { uid, key, value }).collect(),
        edges: edges
            .into_iter()
            .map(|(from, rel, to, (ms, logical, node_id))| Edge { from, rel, to, hlc: Hlc::new(ms, logical, node_id) })
            .collect(),
    })
}

fn delta_prop(uid: &str, key: &str, value: &str) -> Vec<u8> {
    encode_delta(vec![(uid.to_string(), key.to_string(), value.to_string())], vec![])
}

fn delta_edge(from: &str, rel: &str, to: &str) -> Vec<u8> {
    encode_delta(vec![], vec![(from.to_string(), rel.to_string(), to.to_string(), (0, 0, [0; 8]))])
}

fn json_str(s: &str) -> String {
    let mut out = String::from("\"");
    for c in s.chars() {
        match c {
            '"' => out.push_str("\\\""),
            '\\' => out.push_str("\\\\"),
            '\n' => out.push_str("\\n"),
            '\r' => out.push_str("\\r"),
            '\t' => out.push_str("\\t"),
            c if (c as u32) < 0x20 => out.push_str(&format!("\\u{:04x}", c as u32)),
            c => out.push(c),
        }
    }
    out.push('"');
    out
}

fn json_bytes(b: &[u8]) -> String {
    format!("[{}]", b.iter().map(|x| x.to_string()).collect::<Vec<_>>().join(","))
}

fn json_hlc(h: &Hlc) -> String {
    format!("{{\"physical_ms\":{},\"logical\":{},\"node_id\":{}}}", h.physical_ms, h.logical, json_bytes(&h.node_id))
}

/// The state root as a replica computes it: the tagged digest of the JSON
/// encoding of the entity map (entities by uid; each with its uid, its
/// registers by key, its edges in order).
fn state_root(g: &GraphState) -> B3 {
    let entities: Vec<String> = g
        .entities
        .iter()
        .map(|e| {
            let props: Vec<String> = e
                .props
                .iter()
                .map(|p| {
                    let r = &p.register;
                    format!(
                        "{}:{{\"value\":{},\"hlc\":{},\"tier\":{},\"writer\":{}}}",
                        json_str(&p.key),
                        json_str(&r.value),
                        json_hlc(&r.hlc),
                        r.tier,
                        json_bytes(&r.writer)
                    )
                })
                .collect();
            let edges: Vec<String> = e
                .edges
                .iter()
                .map(|x| {
                    format!(
                        "{{\"from\":{},\"rel\":{},\"to\":{},\"hlc\":{}}}",
                        json_str(&x.from),
                        json_str(&x.rel),
                        json_str(&x.to),
                        json_hlc(&x.hlc)
                    )
                })
                .collect();
            format!(
                "{}:{{\"uid\":{},\"props\":{{{}}},\"edges\":[{}]}}",
                json_str(&e.uid),
                json_str(&e.uid),
                props.join(","),
                edges.join(",")
            )
        })
        .collect();
    let json = format!("{{{}}}", entities.join(","));
    GraphState::root_of_encoding(json.as_bytes())
}

struct Signer {
    secret: [u8; 32],
}

impl Signer {
    fn new(seed: u8) -> Self {
        Signer { secret: [seed; 32] }
    }

    fn public(&self) -> [u8; 32] {
        SigningKey::from_bytes(&self.secret).verifying_key().to_bytes()
    }
}

fn sign_packet(delta: Vec<u8>, seq: u64, prev: Option<B3>, physical_ms: u64, signer: &Signer, src: &str, schema: B3) -> PckpPacket {
    let body = SignablePacket {
        v: 2,
        id: format!("{src}-{seq}"),
        src: src.to_string(),
        key: "skey:test".to_string(),
        swarm: "test".to_string(),
        sess: None,
        seq,
        prev,
        hlc: Hlc::new(physical_ms, 0, nid_for(src)),
        schema,
        delta: DeltaRef::from_bytes(delta),
        tier: 1,
        stake: None,
    };
    PckpPacket::sign(body, &signer.secret).unwrap()
}

fn hash_of(p: &PckpPacket) -> B3 {
    p.content_hash()
}

/// Receives a packet as a node does: resolve the key, screen, decode, merge,
/// then drain the sender's held-back successors.
fn ingest(node: &mut AgentZkNode, packet: PckpPacket, keys: &HashMap<String, [u8; 32]>, detached: Option<Vec<u8>>) -> Result<Ack, AgentZkError> {
    let key = *keys
        .get(&packet.body.src)
        .ok_or_else(|| AgentZkError::Serialization(format!("missing key for {}", packet.body.src)))?;
    let src = packet.body.src.clone();
    match node.screen(packet.duplicate(), &key, detached)? {
        Admission::Duplicate => Ok(Ack::Duplicate),
        Admission::Parked => Ok(Ack::Parked),
        Admission::Deliver { delta_bytes, .. } => {
            let delta = decode(&delta_bytes)?;
            node.commit(packet, &delta);
            while let Some((p, d)) = node.take_parked(&src) {
                if ingest(node, p, keys, d).is_err() {
                    break;
                }
            }
            Ok(Ack::Merged)
        }
    }
}

fn value_of(g: &GraphState, uid: &str, key: &str) -> Option<String> {
    g.get_entity(uid).and_then(|e| e.get_prop(key)).map(|r| r.value.clone())
}

fn reverse_on_bit<T: Clone>(items: &[T], seed: u64) -> Vec<T> {
    let mut out = items.to_vec();
    for i in 0..out.len() {
        let j = ((seed.wrapping_mul(1_103_515_245).wrapping_add(i as u64)) as usize) % out.len();
        out.swap(i, j);
    }
    out
}

#[test]
fn lww_converges_under_different_packet_orders() {
    let schema = b3(b"schema:v1");
    let policy = b3(b"policy:v1");
    let signer = Signer::new(1);
    let keys: HashMap<String, [u8; 32]> =
        [("agent:a".to_string(), signer.public()), ("agent:b".to_string(), signer.public())].into_iter().collect();
    let p1 = sign_packet(delta_prop("entity:1", "name", "old"), 1, None, 1000, &signer, "agent:a", schema);
    let p2 = sign_packet(delta_prop("entity:1", "name", "new"), 1, None, 1001, &signer, "agent:b", schema);

    let mut n1 = AgentZkNode::new("n1".to_string(), schema, policy);
    let mut n2 = AgentZkNode::new("n2".to_string(), schema, policy);
    ingest(&mut n1, p1.duplicate(), &keys, None).unwrap();
    ingest(&mut n1, p2.duplicate(), &keys, None).unwrap();
    ingest(&mut n2, p2, &keys, None).unwrap();
    ingest(&mut n2, p1, &keys, None).unwrap();

    assert_eq!(state_root(&n1.graph), state_root(&n2.graph));
    assert_eq!(value_of(&n1.graph, "entity:1", "name").as_deref(), Some("new"));
}

#[test]
fn low_trust_does_not_block_replication() {
    let schema = b3(b"schema:v1");
    let policy = b3(b"policy:v1");
    let s = Signer::new(4);
    let keys: HashMap<String, [u8; 32]> = [("agent:low".to_string(), s.public())].into_iter().collect();
    let p = sign_packet(delta_prop("fact:low-trust", "statement", "Still replicated."), 1, None, 1, &s, "agent:low", schema);
    let mut node = AgentZkNode::new("n1".to_string(), schema, policy);
    assert_eq!(ingest(&mut node, p, &keys, None).unwrap(), Ack::Merged);
    assert!(node.graph.get_entity("fact:low-trust").is_some());
}

#[test]
fn permutation_convergence_with_conflicts_duplicates_edges_and_rejects() {
    let schema = b3(b"schema:issue5");
    let policy = b3(b"policy:issue5");
    let alice = Signer::new(11);
    let bob = Signer::new(12);
    let keys: HashMap<String, [u8; 32]> =
        [("did:alice".to_string(), alice.public()), ("did:bob".to_string(), bob.public())].into_iter().collect();

    let fact1 = sign_packet(delta_prop("fact:stable", "statement", "first"), 1, None, 1, &alice, "did:alice", schema);
    let immutable_violation = sign_packet(
        delta_prop("fact:stable", "statement", "mutated"),
        2,
        Some(hash_of(&fact1)),
        2,
        &alice,
        "did:alice",
        schema,
    );
    let bob_mutable = sign_packet(delta_prop("assessment:vendor-x", "risk", "high"), 1, None, 7, &bob, "did:bob", schema);
    let bob_edge = sign_packet(
        delta_edge("assessment:vendor-x", "CITES", "fact:stable"),
        2,
        Some(hash_of(&bob_mutable)),
        8,
        &bob,
        "did:bob",
        schema,
    );
    let corpus = vec![
        fact1.duplicate(),
        immutable_violation,
        bob_mutable.duplicate(),
        bob_edge,
        bob_mutable,
    ];
    let indices: Vec<usize> = (0..corpus.len()).collect();
    let mut reference: Option<B3> = None;
    for seed in 0..64 {
        let mut node = AgentZkNode::new(format!("node-{seed}"), schema, policy);
        for i in reverse_on_bit(&indices, seed) {
            let _ = ingest(&mut node, corpus[i].duplicate(), &keys, None);
        }
        assert_eq!(value_of(&node.graph, "fact:stable", "statement").as_deref(), Some("first"));
        let root = state_root(&node.graph);
        match reference {
            None => reference = Some(root),
            Some(r) => assert_eq!(r, root, "divergence at seed {seed}"),
        }
    }
}

#[test]
fn tampered_detached_delta_is_rejected() {
    let schema = b3(b"schema:issue5");
    let policy = b3(b"policy:issue5");
    let signer = Signer::new(21);
    let src = "did:tamper";
    let delta_bytes = delta_prop("entity:1", "name", "ok");
    let body = SignablePacket {
        v: 2,
        id: "detached".to_string(),
        src: src.to_string(),
        key: "skey:test".to_string(),
        swarm: "test".to_string(),
        sess: None,
        seq: 1,
        prev: None,
        hlc: Hlc::new(10, 0, nid_for(src)),
        schema,
        delta: DeltaRef::Detached { hash: b3(&delta_bytes), len: delta_bytes.len() as u32 },
        tier: 1,
        stake: None,
    };
    let pkt = PckpPacket::sign(body, &signer.secret).unwrap();
    let mut tampered = delta_bytes.clone();
    tampered[0] ^= 0xff;
    let keys: HashMap<String, [u8; 32]> = [(src.to_string(), signer.public())].into_iter().collect();

    let mut node = AgentZkNode::new("node".to_string(), schema, policy);
    assert!(matches!(ingest(&mut node, pkt.duplicate(), &keys, Some(tampered)), Err(AgentZkError::InvalidDelta)));
    assert!(matches!(ingest(&mut node, pkt.duplicate(), &keys, None), Err(AgentZkError::MissingDeltaBody)));
    assert!(node.wal.is_empty());
    assert_eq!(ingest(&mut node, pkt, &keys, Some(delta_bytes)).unwrap(), Ack::Merged);
}

#[test]
fn nid_mismatch_is_rejected() {
    let schema = b3(b"schema:issue5");
    let policy = b3(b"policy:issue5");
    let signer = Signer::new(31);
    let mut pkt = sign_packet(delta_prop("entity:1", "name", "ok"), 1, None, 10, &signer, "did:nid", schema);
    pkt.body.hlc.node_id = *b"forged!!";
    pkt = PckpPacket::sign(pkt.body, &signer.secret).unwrap();
    let keys: HashMap<String, [u8; 32]> = [("did:nid".to_string(), signer.public())].into_iter().collect();

    let mut node = AgentZkNode::new("node".to_string(), schema, policy);
    assert!(matches!(ingest(&mut node, pkt, &keys, None), Err(AgentZkError::NidMismatch)));
}

#[test]
fn duplicate_ingest_is_noop() {
    let schema = b3(b"schema:issue5");
    let policy = b3(b"policy:issue5");
    let signer = Signer::new(41);
    let pkt = sign_packet(delta_prop("entity:dup", "name", "once"), 1, None, 10, &signer, "did:dup", schema);
    let keys: HashMap<String, [u8; 32]> = [("did:dup".to_string(), signer.public())].into_iter().collect();
    let mut node = AgentZkNode::new("node".to_string(), schema, policy);
    assert_eq!(ingest(&mut node, pkt.duplicate(), &keys, None).unwrap(), Ack::Merged);
    let root = state_root(&node.graph);
    let state = format!("{node:?}");
    let wal_len = node.wal.len();
    assert_eq!(ingest(&mut node, pkt, &keys, None).unwrap(), Ack::Duplicate);
    assert_eq!(root, state_root(&node.graph));
    assert_eq!(wal_len, node.wal.len());
    assert_eq!(state, format!("{node:?}"));
}

#[test]
fn equivocation_records_both_signed_packets() {
    let schema = b3(b"schema:issue5");
    let policy = b3(b"policy:issue5");
    let signer = Signer::new(51);
    let src = "did:equiv";
    let pkt_a = sign_packet(delta_prop("entity:e", "v", "a"), 1, None, 10, &signer, src, schema);
    let pkt_b = sign_packet(delta_prop("entity:e", "v", "b"), 1, None, 10, &signer, src, schema);
    let keys: HashMap<String, [u8; 32]> = [(src.to_string(), signer.public())].into_iter().collect();
    let mut node = AgentZkNode::new("node".to_string(), schema, policy);
    ingest(&mut node, pkt_a.duplicate(), &keys, None).unwrap();
    assert!(matches!(
        ingest(&mut node, pkt_b.duplicate(), &keys, None),
        Err(AgentZkError::Equivocation { .. })
    ));
    assert_eq!(node.equivocation_evidence.len(), 1);
    assert_eq!(hash_of(&node.equivocation_evidence[0].0), hash_of(&pkt_a));
    assert_eq!(hash_of(&node.equivocation_evidence[0].1), hash_of(&pkt_b));
}

#[test]
fn unknown_sender_key_is_an_error() {
    let schema = b3(b"s");
    let signer = Signer::new(61);
    let pkt = sign_packet(delta_prop("entity:1", "k", "v"), 1, None, 1, &signer, "did:x", schema);
    let mut node = AgentZkNode::new("node".to_string(), schema, schema);
    let keys: HashMap<String, [u8; 32]> = HashMap::new();
    assert!(matches!(ingest(&mut node, pkt, &keys, None), Err(AgentZkError::Serialization(_))));
}

#[test]
fn bad_signature_is_refused() {
    let schema = b3(b"s");
    let signer = Signer::new(62);
    let other = Signer::new(63);
    let pkt = sign_packet(delta_prop("entity:1", "k", "v"), 1, None, 1, &signer, "did:x", schema);
    let keys: HashMap<String, [u8; 32]> = [("did:x".to_string(), other.public())].into_iter().collect();
    let mut node = AgentZkNode::new("node".to_string(), schema, schema);
    assert!(matches!(ingest(&mut node, pkt, &keys, None), Err(AgentZkError::BadSignature)));
    assert!(node.wal.is_empty());
}

#[test]
fn schema_mismatch_reports_both_digests_in_hex() {
    let signer = Signer::new(64);
    let pkt = sign_packet(delta_prop("entity:1", "k", "v"), 1, None, 1, &signer, "did:x", b3(b"theirs"));
    let keys: HashMap<String, [u8; 32]> = [("did:x".to_string(), signer.public())].into_iter().collect();
    let mut node = AgentZkNode::new("node".to_string(), b3(b"ours"), b3(b"p"));
    match ingest(&mut node, pkt, &keys, None) {
        Err(AgentZkError::SchemaMismatch { expected, got }) => {
            assert_eq!(expected, hex::encode(b3(b"ours")));
            assert_eq!(got, hex::encode(b3(b"theirs")));
        }
        other => panic!("{other:?}"),
    }
}

#[test]
fn oversized_delta_is_refused() {
    let schema = b3(b"s");
    let signer = Signer::new(65);
    let big = vec![b'x'; MAX_DELTA_LEN + 1];
    let pkt = sign_packet(big, 1, None, 1, &signer, "did:x", schema);
    let keys: HashMap<String, [u8; 32]> = [("did:x".to_string(), signer.public())].into_iter().collect();
    let mut node = AgentZkNode::new("node".to_string(), schema, schema);
    assert!(matches!(ingest(&mut node, pkt, &keys, None), Err(AgentZkError::DeltaTooLarge(n)) if n == MAX_DELTA_LEN + 1));
}

#[test]
fn future_packets_wait_for_their_predecessor() {
    let schema = b3(b"s");
    let signer = Signer::new(66);
    let src = "did:chain";
    let p1 = sign_packet(delta_prop("entity:c", "v", "1"), 1, None, 1, &signer, src, schema);
    let p2 = sign_packet(delta_prop("entity:c", "v", "2"), 2, Some(hash_of(&p1)), 2, &signer, src, schema);
    let p3 = sign_packet(delta_prop("entity:c", "v", "3"), 3, Some(hash_of(&p2)), 3, &signer, src, schema);
    let keys: HashMap<String, [u8; 32]> = [(src.to_string(), signer.public())].into_iter().collect();
    let mut node = AgentZkNode::new("node".to_string(), schema, schema);
    assert_eq!(ingest(&mut node, p3, &keys, None).unwrap(), Ack::Parked);
    assert_eq!(ingest(&mut node, p2, &keys, None).unwrap(), Ack::Parked);
    assert_eq!(node.count_parked(src), 2);
    assert!(node.graph.get_entity("entity:c").is_none());
    assert_eq!(ingest(&mut node, p1, &keys, None).unwrap(), Ack::Merged);
    assert_eq!(node.count_parked(src), 0);
    assert_eq!(node.wal.len(), 3);
    assert_eq!(value_of(&node.graph, "entity:c", "v").as_deref(), Some("3"));
}

#[test]
fn broken_chain_is_refused() {
    let schema = b3(b"s");
    let signer = Signer::new(67);
    let src = "did:chain";
    let p1 = sign_packet(delta_prop("entity:c", "v", "1"), 1, None, 1, &signer, src, schema);
    let bad2 = sign_packet(delta_prop("entity:c", "v", "2"), 2, Some([7; 32]), 2, &signer, src, schema);
    let bad1 = sign_packet(delta_prop("entity:c", "v", "x"), 1, Some([7; 32]), 1, &signer, "did:other", schema);
    let keys: HashMap<String, [u8; 32]> =
        [(src.to_string(), signer.public()), ("did:other".to_string(), signer.public())].into_iter().collect();
    let mut node = AgentZkNode::new("node".to_string(), schema, schema);
    ingest(&mut node, p1, &keys, None).unwrap();
    assert!(matches!(ingest(&mut node, bad2, &keys, None), Err(AgentZkError::ChainBreak { seq: 2, .. })));
    assert!(matches!(ingest(&mut node, bad1, &keys, None), Err(AgentZkError::ChainBreak { seq: 1, .. })));
}

#[test]
fn hold_back_is_bounded_per_sender() {
    let schema = b3(b"s");
    let signer = Signer::new(68);
    let src = "did:flood";
    let keys: HashMap<String, [u8; 32]> = [(src.to_string(), signer.public())].into_iter().collect();
    let mut node = AgentZkNode::new("node".to_string(), schema, schema);
    for seq in 2..(2 + agentzk_speedline::node::MAX_PENDING_PER_SRC as u64) {
        let p = sign_packet(delta_prop("entity:f", "v", "x"), seq, None, seq, &signer, src, schema);
        assert_eq!(ingest(&mut node, p, &keys, None).unwrap(), Ack::Parked);
    }
    let extra = sign_packet(delta_prop("entity:f", "v", "x"), 5000, None, 5000, &signer, src, schema);
    assert!(matches!(ingest(&mut node, extra, &keys, None), Err(AgentZkError::PendingOverflow)));
}

#[test]
fn merged_log_is_each_senders_chain() {
    let schema = b3(b"s");
    let a = Signer::new(70);
    let b = Signer::new(71);
    let keys: HashMap<String, [u8; 32]> =
        [("did:a".to_string(), a.public()), ("did:b".to_string(), b.public())].into_iter().collect();
    let a1 = sign_packet(delta_prop("entity:a", "v", "1"), 1, None, 1, &a, "did:a", schema);
    let a2 = sign_packet(delta_prop("entity:a", "v", "2"), 2, Some(hash_of(&a1)), 2, &a, "did:a", schema);
    let a3 = sign_packet(delta_prop("entity:a", "v", "3"), 3, Some(hash_of(&a2)), 3, &a, "did:a", schema);
    let b1 = sign_packet(delta_edge("entity:b", "SEES", "entity:a"), 1, None, 4, &b, "did:b", schema);
    let b2 = sign_packet(delta_prop("entity:b", "v", "x"), 2, Some(hash_of(&b1)), 5, &b, "did:b", schema);
    let mut node = AgentZkNode::new("node".to_string(), schema, schema);
    for p in [a3.duplicate(), b2.duplicate(), a2.duplicate(), b1.duplicate(), a1.duplicate(), a2] {
        let _ = ingest(&mut node, p, &keys, None);
    }
    assert_eq!(node.wal.len(), 5);
    for src in ["did:a", "did:b"] {
        let chain: Vec<&PckpPacket> = node.wal.iter().filter(|p| p.body.src == src).collect();
        for (i, p) in chain.iter().enumerate() {
            assert_eq!(p.body.seq, i as u64 + 1);
            if i == 0 {
                assert_eq!(p.body.prev, None);
            } else {
                assert_eq!(p.body.prev, Some(hash_of(chain[i - 1])));
            }
        }
    }
    assert_eq!(value_of(&node.graph, "entity:a", "v").as_deref(), Some("3"));
}
