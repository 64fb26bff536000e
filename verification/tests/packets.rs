use agentzk_speedline::error::AgentZkError;
use agentzk_speedline::hash::b3;
use agentzk_speedline::hlc::Hlc;
use agentzk_speedline::packet::{DeltaRef, PckpPacket, SignablePacket, INLINE_DELTA_MAX};
use agentzk_speedline::prover::{EpochRange, FakeProofBackend, ProofStatus};
use ed25519_dalek::{Signer, SigningKey};

fn body(seq: u64) -> SignablePacket {
    SignablePacket {
        v: 2,
        id: format!("pkt-{seq}"),
        src: "agent:a".to_string(),
        key: "skey:01".to_string(),
        swarm: "alpha".to_string(),
        sess: Some("team:test".to_string()),
        seq,
        prev: None,
        hlc: Hlc::new(1000, 0, *b"nodeA000"),
        schema: b3(b"schema:v1"),
        delta: DeltaRef::from_bytes(vec![1, 2, 3]),
        tier: 1,
        stake: None,
    }
}

#[test]
fn small_deltas_travel_inline() {
    match DeltaRef::from_bytes(vec![7; INLINE_DELTA_MAX]) {
        DeltaRef::Inline(b) => assert_eq!(b.len(), INLINE_DELTA_MAX),
        other => panic!("{other:?}"),
    }
}

#[test]
fn large_deltas_are_detached_by_digest() {
    let bytes = vec![7u8; INLINE_DELTA_MAX + 1];
    match DeltaRef::from_bytes(bytes.clone()) {
        DeltaRef::Detached { hash, len } => {
            assert_eq!(hash, b3(&bytes));
            assert_eq!(len as usize, bytes.len());
        }
        other => panic!("{other:?}"),
    }
}

fn text(s: &str) -> Vec<u8> {
    let mut out = vec![s.len() as u8];
    out.extend_from_slice(s.as_bytes());
    out
}

#[test]
fn signing_bytes_are_domain_then_postcard_body() {
    let mut expected = b"PCKP-v0.2-sig".to_vec();
    expected.push(2); // v
    expected.extend(text("pkt-1"));
    expected.extend(text("agent:a"));
    expected.extend(text("skey:01"));
    expected.extend(text("alpha"));
    expected.push(1); // sess is Some
    expected.extend(text("team:test"));
    expected.push(1); // seq
    expected.push(0); // prev is None
    expected.extend([0xe8, 0x07]); // physical_ms 1000 as a varint
    expected.push(0); // logical
    expected.extend(b"nodeA000");
    expected.extend(b3(b"schema:v1"));
    expected.extend([0, 3, 1, 2, 3]); // Inline, length 3, the bytes
    expected.push(1); // tier
    expected.push(0); // stake is None
    assert_eq!(body(1).signing_bytes().unwrap(), expected);

    let mut detached = body(300);
    let hash = b3(b"big");
    detached.delta = DeltaRef::Detached { hash, len: 5000 };
    detached.sess = None;
    detached.prev = Some([4; 32]);
    let sb = detached.signing_bytes().unwrap();
    let mut tail = vec![0xac, 0x02]; // seq 300 as a varint
    tail.push(1);
    tail.extend([4u8; 32]);
    tail.extend([0xe8, 0x07, 0]);
    tail.extend(b"nodeA000");
    tail.extend(b3(b"schema:v1"));
    tail.push(1); // Detached
    tail.extend(hash);
    tail.extend([0x88, 0x27]); // 5000 as a varint
    tail.extend([1, 0]);
    assert!(sb.ends_with(&tail));
    assert_eq!(sb[13 + 1 + 8 + 8 + 8 + 6], 0); // sess is None
}

#[test]
fn signature_round_trip_and_rejections() {
    let secret = [9u8; 32];
    let public = SigningKey::from_bytes(&secret).verifying_key().to_bytes();
    let pkt = PckpPacket::sign(body(1), &secret).unwrap();
    let sb = body(1).signing_bytes().unwrap();
    assert_eq!(pkt.sig, SigningKey::from_bytes(&secret).sign(&sb).to_bytes().to_vec());
    assert_eq!(pkt.sig.len(), 64);
    assert_eq!(PckpPacket::public_key(&secret), public);
    assert!(pkt.verify(&PckpPacket::public_key(&secret)).is_ok());
    assert!(pkt.verify(&public).is_ok());
    let mut altered = pkt.duplicate();
    altered.body.seq = 2;
    assert!(matches!(altered.verify(&public), Err(AgentZkError::BadSignature)));
    let wrong_key = SigningKey::from_bytes(&[3u8; 32]).verifying_key().to_bytes();
    assert!(matches!(pkt.verify(&wrong_key), Err(AgentZkError::BadSignature)));
    let mut short = pkt.duplicate();
    short.sig.pop();
    assert!(matches!(short.verify(&public), Err(AgentZkError::BadSignature)));
}

#[test]
fn content_hash_is_digest_of_signing_bytes() {
    let pkt = PckpPacket::sign(body(1), &[9u8; 32]).unwrap();
    assert_eq!(pkt.content_hash(), b3(&body(1).signing_bytes().unwrap()));
    let other = PckpPacket::sign(body(2), &[9u8; 32]).unwrap();
    assert_ne!(pkt.content_hash(), other.content_hash());
}

#[test]
fn fake_prover_certifies_and_binds_encoding() {
    let range = EpochRange {
        from_epoch: 1,
        to_epoch: 2,
        state_root_before: [0; 32],
        state_root_after: [1; 32],
        packet_range_root: [2; 32],
    };
    let receipt = FakeProofBackend.prove_transition(range, b"encoded-range");
    assert_eq!(receipt.claim_type, "pckp.transition.v1");
    assert_eq!(receipt.status, ProofStatus::Certified);
    assert_eq!(receipt.receipt_hash, b3(b"encoded-range"));
    assert_eq!(receipt.range.to_epoch, 2);
}
