use agentzk_speedline::graph::{Edge, GraphState};
use agentzk_speedline::hlc::Hlc;
use agentzk_speedline::graph::{GraphDelta, PropPatch};
use agentzk_speedline::merge::{class_of, law_for, value_bytes, MergeCtx, MergeEngine, MergePolicy, RegisterLaw};
use agentzk_speedline::graph::PropRegister;

fn engine() -> MergeEngine {
    MergeEngine::new(MergePolicy::new([1; 32], [2; 32]))
}

fn patch(uid: &str, key: &str, value: &str) -> GraphDelta {
    GraphDelta {
        props: vec![PropPatch { uid: uid.to_string(), key: key.to_string(), value: value.to_string() }],
        edges: vec![],
    }
}

fn ctx(ms: u64, writer: &[u8; 8]) -> MergeCtx {
    MergeCtx { hlc: Hlc::new(ms, 0, *writer), tier: 1, writer: *writer }
}

fn value_of(g: &GraphState, uid: &str, key: &str) -> Option<String> {
    g.get_entity(uid).and_then(|e| e.get_prop(key)).map(|r| r.value.clone())
}

#[test]
fn class_is_text_before_first_colon() {
    assert_eq!(class_of("fact:a:b"), "fact");
    assert_eq!(class_of("fact"), "fact");
    assert_eq!(class_of(":x"), "");
    assert_eq!(class_of(""), "");
    assert_eq!(class_of("é:ü"), "é");
}

#[test]
fn append_only_classes_keep_first_write() {
    for uid in ["fact:1", "episode:1", "attestation:1", "score:1", "fact"] {
        assert!(matches!(law_for(uid), RegisterLaw::FirstWriteWins), "{uid}");
    }
    for uid in ["assessment:1", "facts:1", "entity:1", "", "Fact:1"] {
        assert!(matches!(law_for(uid), RegisterLaw::LastWriteWins), "{uid}");
    }
}

#[test]
fn value_bytes_are_postcard_string_encoding() {
    let r = PropRegister::new("hi".to_string(), Hlc::new(0, 0, [0; 8]), 0, [0; 8]);
    assert_eq!(value_bytes(&r), vec![2, b'h', b'i']);
    let long = "x".repeat(200);
    let r = PropRegister::new(long.clone(), Hlc::new(0, 0, [0; 8]), 0, [0; 8]);
    let b = value_bytes(&r);
    assert_eq!(&b[..2], &[200 % 128 + 128, 1]);
    assert_eq!(b, postcard::to_allocvec(&long).unwrap());
}

#[test]
fn last_writer_wins_for_mutable_classes() {
    let e = engine();
    let mut g = GraphState::new();
    let r1 = e.apply(&mut g, &patch("entity:1", "name", "old"), &ctx(1000, b"nodeA000"));
    let r2 = e.apply(&mut g, &patch("entity:1", "name", "new"), &ctx(1001, b"nodeB000"));
    let r3 = e.apply(&mut g, &patch("entity:1", "name", "stale"), &ctx(999, b"nodeC000"));
    assert_eq!(value_of(&g, "entity:1", "name").as_deref(), Some("new"));
    assert_eq!((r1.props_applied, r2.props_applied, r3.props_applied), (1, 1, 0));
    assert_eq!(r3.props_shadowed, 1);
}

#[test]
fn first_writer_wins_for_facts() {
    let e = engine();
    let mut g = GraphState::new();
    e.apply(&mut g, &patch("fact:stable", "statement", "first"), &ctx(1, b"nodeA000"));
    let r = e.apply(&mut g, &patch("fact:stable", "statement", "mutated"), &ctx(2, b"nodeA000"));
    assert_eq!(value_of(&g, "fact:stable", "statement").as_deref(), Some("first"));
    assert_eq!((r.props_applied, r.props_shadowed), (0, 1));
}

#[test]
fn equal_metadata_ties_break_on_value_bytes() {
    let e = engine();
    let mut lww = GraphState::new();
    e.apply(&mut lww, &patch("entity:e", "v", "b"), &ctx(10, b"nodeA000"));
    e.apply(&mut lww, &patch("entity:e", "v", "a"), &ctx(10, b"nodeA000"));
    assert_eq!(value_of(&lww, "entity:e", "v").as_deref(), Some("b"));
    let mut fww = GraphState::new();
    e.apply(&mut fww, &patch("fact:e", "v", "b"), &ctx(10, b"nodeA000"));
    e.apply(&mut fww, &patch("fact:e", "v", "a"), &ctx(10, b"nodeA000"));
    assert_eq!(value_of(&fww, "fact:e", "v").as_deref(), Some("a"));
}

#[test]
fn edges_form_an_add_wins_set_on_the_source() {
    let e = engine();
    let mut g = GraphState::new();
    let edge = |rel: &str| Edge {
        from: "assessment:x".to_string(),
        rel: rel.to_string(),
        to: "fact:stable".to_string(),
        hlc: Hlc::new(0, 0, [0; 8]),
    };
    let d = GraphDelta { props: vec![], edges: vec![edge("CITES"), edge("CITES"), edge("ABOUT")] };
    let r = e.apply(&mut g, &d, &ctx(8, b"nodeB000"));
    assert_eq!(r.edges_added, 2);
    let ent = g.get_entity("assessment:x").unwrap();
    assert_eq!(ent.edges.len(), 2);
    assert_eq!(ent.edges[0].rel, "ABOUT");
    assert!(ent.has_edge(&edge("CITES")));
    let r = e.apply(&mut g, &d, &ctx(9, b"nodeB000"));
    assert_eq!(r.edges_added, 0);
}

#[test]
fn merge_order_does_not_matter() {
    let e = engine();
    let d1 = GraphDelta {
        props: vec![
            PropPatch { uid: "entity:1".into(), key: "name".into(), value: "x".into() },
            PropPatch { uid: "fact:1".into(), key: "s".into(), value: "p".into() },
        ],
        edges: vec![Edge { from: "entity:1".into(), rel: "R".into(), to: "fact:1".into(), hlc: Hlc::new(1, 0, [0; 8]) }],
    };
    let d2 = GraphDelta {
        props: vec![
            PropPatch { uid: "entity:1".into(), key: "name".into(), value: "y".into() },
            PropPatch { uid: "fact:1".into(), key: "s".into(), value: "q".into() },
            PropPatch { uid: "entity:0".into(), key: "k".into(), value: "z".into() },
        ],
        edges: vec![],
    };
    let (c1, c2) = (ctx(5, b"nodeA000"), ctx(6, b"nodeB000"));
    let mut a = GraphState::new();
    e.apply(&mut a, &d1, &c1);
    e.apply(&mut a, &d2, &c2);
    let mut b = GraphState::new();
    e.apply(&mut b, &d2, &c2);
    e.apply(&mut b, &d1, &c1);
    assert_eq!(format!("{a:?}"), format!("{b:?}"));
    assert_eq!(value_of(&a, "entity:1", "name").as_deref(), Some("y"));
    assert_eq!(value_of(&a, "fact:1", "s").as_deref(), Some("p"));
    assert_eq!(a.entities[0].uid, "entity:0");
    e.apply(&mut a, &d1, &c1);
    assert_eq!(format!("{a:?}"), format!("{b:?}"));
}

#[test]
fn entity_mut_creates_on_first_touch() {
    let mut g = GraphState::new();
    assert!(g.get_entity("x").is_none());
    let ent = g.entity_mut("x");
    assert_eq!(ent.uid, "x");
    assert!(ent.props.is_empty());
    assert!(g.get_entity("x").is_some());
    g.entity_mut("a");
    assert_eq!(g.entities[0].uid, "a");
    assert_eq!(g.entities.len(), 2);
}

#[test]
fn root_commits_to_the_encoding() {
    let r1 = GraphState::root_of_encoding(b"{}");
    let r2 = GraphState::root_of_encoding(b"{ }");
    assert_ne!(r1, r2);
    let mut input = b"agentzk.graph.root.v0".to_vec();
    input.extend_from_slice(&2u64.to_le_bytes());
    input.extend_from_slice(b"{}");
    assert_eq!(r1, *blake3::hash(&input).as_bytes());
}

#[test]
fn replaying_a_delta_reports_nothing_new() {
    let e = engine();
    let mut g = GraphState::new();
    let d = GraphDelta {
        props: vec![
            PropPatch { uid: "entity:1".to_string(), key: "name".to_string(), value: "a".to_string() },
            PropPatch { uid: "fact:1".to_string(), key: "statement".to_string(), value: "b".to_string() },
        ],
        edges: vec![Edge {
            from: "entity:1".to_string(),
            rel: "CITES".to_string(),
            to: "fact:1".to_string(),
            hlc: Hlc::new(0, 0, [0; 8]),
        }],
    };
    let c = ctx(5, b"nodeA000");
    let first = e.apply(&mut g, &d, &c);
    assert_eq!(first.props_applied, 2);
    assert_eq!(first.props_shadowed, 0);
    assert_eq!(first.edges_added, 1);
    let before = format!("{g:?}");
    let again = e.apply(&mut g, &d, &c);
    assert_eq!(again.props_applied, 0);
    assert_eq!(again.props_shadowed, 2);
    assert_eq!(again.edges_added, 0);
    assert_eq!(before, format!("{g:?}"));
}
