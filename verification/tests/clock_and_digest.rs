use agentzk_speedline::hash::{b3, combine, combine_one, hex_encode};
use agentzk_speedline::hlc::Hlc;
use agentzk_speedline::node::nid_for;

#[test]
fn tick_bumps_counter_when_wall_clock_is_behind() {
    let h = Hlc::new(1000, 3, *b"nodeA000");
    let t = h.tick(999);
    assert_eq!(t, Hlc::new(1000, 4, *b"nodeA000"));
    assert!(h.lt(&t));
}

#[test]
fn tick_jumps_to_wall_clock_when_ahead() {
    let h = Hlc::new(1000, 7, *b"nodeA000");
    let t = h.tick(2000);
    assert_eq!(t, Hlc::new(2000, 0, *b"nodeA000"));
    assert!(h.lt(&t));
}

#[test]
fn clock_order_is_time_then_counter_then_node() {
    let a = Hlc::new(1, 9, *b"zzzzzzzz");
    let b = Hlc::new(2, 0, *b"aaaaaaaa");
    let c = Hlc::new(2, 1, *b"aaaaaaaa");
    let d = Hlc::new(2, 1, *b"aaaaaaab");
    assert!(a.lt(&b) && b.lt(&c) && c.lt(&d));
    assert!(!b.lt(&a) && !d.lt(&c) && !c.lt(&c));
    assert!(c.same(&Hlc::new(2, 1, *b"aaaaaaaa")));
    assert!(!c.same(&d));
    assert_eq!(a < b, a.lt(&b));
    assert_eq!(c < d, c.lt(&d));
}

#[test]
fn b3_is_blake3() {
    assert_eq!(
        hex::encode(b3(b"abc")),
        "6437b3ac38465133ffb63b75273a8db548c558465d79db03fd359c6cd5bd9d85"
    );
}

#[test]
fn combine_frames_each_chunk_by_its_length() {
    let mut input = b"tag".to_vec();
    input.extend_from_slice(&2u64.to_le_bytes());
    input.extend_from_slice(b"ab");
    input.extend_from_slice(&1u64.to_le_bytes());
    input.extend_from_slice(b"c");
    let chunks: [&[u8]; 2] = [b"ab", b"c"];
    assert_eq!(combine("tag", &chunks), *blake3::hash(&input).as_bytes());
    let other: [&[u8]; 2] = [b"a", b"bc"];
    assert_ne!(combine("tag", &chunks), combine("tag", &other));
    assert_eq!(combine_one("tag", b"ab"), combine("tag", &[b"ab".as_slice()]));
}

#[test]
fn nid_is_digest_prefix() {
    let h = b3(b"did:alice");
    assert_eq!(nid_for("did:alice"), <[u8; 8]>::try_from(&h[..8]).unwrap());
    assert_ne!(nid_for("did:alice"), nid_for("did:bob"));
}

#[test]
fn hex_is_lowercase_high_nibble_first() {
    let mut d = [0u8; 32];
    d[0] = 0xab;
    d[31] = 0x0f;
    let s = hex_encode(&d);
    assert_eq!(s.len(), 64);
    assert!(s.starts_with("ab00"));
    assert!(s.ends_with("0f"));
}
