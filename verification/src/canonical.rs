//! The stored form of a graph is determined by its content: two well-formed
//! states with the same entities, properties and edges hold them in the same
//! order, so any encoding of the stored form (and the root over it) agrees.

use vstd::prelude::*;
use crate::graph::{
    Edge, EdgeView, Entity, GraphState, PropEntry, RegisterView, edge_lt, edge_set, entities_sorted,
    entity_map, lemma_edge_order, lemma_entity_map_at, lemma_props_map_at, props_map, props_sorted,
};
use crate::order::{key_lt, lemma_key_total};
use crate::convergence::{lemma_merge_order_free, merge_all};
use crate::graph::{DeltaView, EntityView};
use crate::merge::MergeCtx;

verus! {

/// Strictly increasing under `lt`.
pub open spec fn increasing<T>(s: Seq<T>, lt: spec_fn(T, T) -> bool) -> bool {
    forall|i: int, j: int| 0 <= i < j < s.len() ==> lt(#[trigger] s[i], #[trigger] s[j])
}

/// Two sequences, each strictly increasing under an asymmetric relation, that
/// hold the same elements are the same sequence.
pub proof fn lemma_increasing_unique<T>(a: Seq<T>, b: Seq<T>, lt: spec_fn(T, T) -> bool)
    requires
        forall|x: T, y: T| #[trigger] lt(x, y) ==> !lt(y, x),
        increasing(a, lt),
        increasing(b, lt),
        forall|x: T| a.contains(x) <==> b.contains(x),
    ensures
        a == b,
    decreases a.len(),
{
    if a.len() == 0 {
        if b.len() > 0 {
            assert(b.contains(b[0]));
        }
        assert(a =~= b);
    } else if b.len() == 0 {
        assert(a.contains(a[0]));
    } else {
        assert(a.contains(a[0]));
        assert(b.contains(b[0]));
        let j = choose|j: int| 0 <= j < b.len() && b[j] == a[0];
        let i = choose|i: int| 0 <= i < a.len() && a[i] == b[0];
        if j > 0 && i > 0 {
            assert(lt(b[0], b[j]));
            assert(lt(a[0], a[i]));
        }
        assert(a[0] == b[0]);
        let a1 = a.drop_first();
        let b1 = b.drop_first();
        assert forall|x: T| a1.contains(x) <==> b1.contains(x) by {
            if a1.contains(x) {
                let k = choose|k: int| 0 <= k < a1.len() && a1[k] == x;
                assert(a.contains(x));
                let m = choose|m: int| 0 <= m < b.len() && b[m] == x;
                if m == 0 {
                    assert(lt(a[0], a[k + 1]));
                    assert(lt(x, x));
                }
                assert(b1[m - 1] == x);
            }
            if b1.contains(x) {
                let k = choose|k: int| 0 <= k < b1.len() && b1[k] == x;
                assert(b.contains(x));
                let m = choose|m: int| 0 <= m < a.len() && a[m] == x;
                if m == 0 {
                    assert(lt(b[0], b[k + 1]));
                    assert(lt(x, x));
                }
                assert(a1[m - 1] == x);
            }
        }
        assert forall|p: int, q: int| 0 <= p < q < a1.len() implies lt(#[trigger] a1[p], #[trigger] a1[q]) by {
            assert(lt(a[p + 1], a[q + 1]));
        }
        assert forall|p: int, q: int| 0 <= p < q < b1.len() implies lt(#[trigger] b1[p], #[trigger] b1[q]) by {
            assert(lt(b[p + 1], b[q + 1]));
        }
        lemma_increasing_unique(a1, b1, lt);
        assert(a =~= b) by {
            assert forall|k: int| 0 <= k < a.len() implies a[k] == b[k] by {
                if k > 0 {
                    assert(a[k] == a1[k - 1]);
                    assert(b[k] == b1[k - 1]);
                }
            }
        }
    }
}

/// The stored properties, in order: each key with its register.
pub open spec fn props_deep(s: Seq<PropEntry>) -> Seq<(Seq<char>, RegisterView)> {
    s.map_values(|e: PropEntry| (e.key@, e.register@))
}

/// The stored edges, in order.
pub open spec fn edges_deep(s: Seq<Edge>) -> Seq<EdgeView> {
    s.map_values(|e: Edge| e@)
}

/// An entity's stored form: uid, ordered properties, ordered edges.
pub open spec fn entity_deep(e: Entity) -> (Seq<char>, Seq<(Seq<char>, RegisterView)>, Seq<EdgeView>) {
    (e.uid@, props_deep(e.props@), edges_deep(e.edges@))
}

/// A graph's stored form: its entities in order.
pub open spec fn graph_deep(g: GraphState) -> Seq<(Seq<char>, Seq<(Seq<char>, RegisterView)>, Seq<EdgeView>)> {
    g.entities@.map_values(|e: Entity| entity_deep(e))
}

pub open spec fn key_order() -> spec_fn(Seq<char>, Seq<char>) -> bool {
    |x: Seq<char>, y: Seq<char>| key_lt(x, y)
}

pub open spec fn edge_order() -> spec_fn(EdgeView, EdgeView) -> bool {
    |x: EdgeView, y: EdgeView| edge_lt(x, y)
}

proof fn lemma_key_order_asymmetric()
    ensures
        forall|x: Seq<char>, y: Seq<char>| #[trigger] key_order()(x, y) ==> !key_order()(y, x),
{
    assert forall|x: Seq<char>, y: Seq<char>| #[trigger] key_order()(x, y) implies !key_order()(y, x) by {
        lemma_key_total(x, y);
    }
}

proof fn lemma_props_canonical(a: Seq<PropEntry>, b: Seq<PropEntry>)
    requires
        props_sorted(a),
        props_sorted(b),
        props_map(a) == props_map(b),
    ensures
        props_deep(a) == props_deep(b),
{
    let ka = a.map_values(|e: PropEntry| e.key@);
    let kb = b.map_values(|e: PropEntry| e.key@);
    lemma_key_order_asymmetric();
    assert forall|i: int, j: int| 0 <= i < j < ka.len() implies key_order()(#[trigger] ka[i], #[trigger] ka[j]) by {
        assert(key_lt(a[i].key@, a[j].key@));
    }
    assert forall|i: int, j: int| 0 <= i < j < kb.len() implies key_order()(#[trigger] kb[i], #[trigger] kb[j]) by {
        assert(key_lt(b[i].key@, b[j].key@));
    }
    assert forall|x: Seq<char>| ka.contains(x) <==> kb.contains(x) by {
        if ka.contains(x) {
            let i = choose|i: int| 0 <= i < ka.len() && ka[i] == x;
            lemma_props_map_at(a, i);
            assert(props_map(b).contains_key(x));
            let j = choose|j: int| 0 <= j < b.len() && b[j].key@ == x;
            assert(kb[j] == x);
        }
        if kb.contains(x) {
            let i = choose|i: int| 0 <= i < kb.len() && kb[i] == x;
            lemma_props_map_at(b, i);
            assert(props_map(a).contains_key(x));
            let j = choose|j: int| 0 <= j < a.len() && a[j].key@ == x;
            assert(ka[j] == x);
        }
    }
    lemma_increasing_unique(ka, kb, key_order());
    assert forall|i: int| 0 <= i < a.len() implies props_deep(a)[i] == props_deep(b)[i] by {
        assert(ka[i] == kb[i]);
        lemma_props_map_at(a, i);
        lemma_props_map_at(b, i);
    }
    assert(props_deep(a) =~= props_deep(b));
}

proof fn lemma_edges_canonical(a: Seq<Edge>, b: Seq<Edge>)
    requires
        crate::graph::edges_sorted(a),
        crate::graph::edges_sorted(b),
        edge_set(a) == edge_set(b),
    ensures
        edges_deep(a) == edges_deep(b),
{
    let va = edges_deep(a);
    let vb = edges_deep(b);
    assert forall|x: EdgeView, y: EdgeView| #[trigger] edge_order()(x, y) implies !edge_order()(y, x) by {
        lemma_edge_order(x, y, x);
    }
    assert forall|i: int, j: int| 0 <= i < j < va.len() implies edge_order()(#[trigger] va[i], #[trigger] va[j]) by {
        assert(edge_lt(a[i]@, a[j]@));
    }
    assert forall|i: int, j: int| 0 <= i < j < vb.len() implies edge_order()(#[trigger] vb[i], #[trigger] vb[j]) by {
        assert(edge_lt(b[i]@, b[j]@));
    }
    assert forall|x: EdgeView| va.contains(x) <==> vb.contains(x) by {
        if va.contains(x) {
            let i = choose|i: int| 0 <= i < va.len() && va[i] == x;
            assert(edge_set(a).contains(x));
            let j = choose|j: int| 0 <= j < b.len() && b[j]@ == x;
            assert(vb[j] == x);
        }
        if vb.contains(x) {
            let i = choose|i: int| 0 <= i < vb.len() && vb[i] == x;
            assert(edge_set(b).contains(x));
            let j = choose|j: int| 0 <= j < a.len() && a[j]@ == x;
            assert(va[j] == x);
        }
    }
    lemma_increasing_unique(va, vb, edge_order());
}

/// Two well-formed graphs with the same content are stored identically:
/// the same entities in the same order, each with the same properties and
/// edges in the same order.
pub proof fn lemma_state_canonical(a: GraphState, b: GraphState)
    requires
        a.wf(),
        b.wf(),
        a@ == b@,
    ensures
        graph_deep(a) == graph_deep(b),
{
    let sa = a.entities@;
    let sb = b.entities@;
    let ka = sa.map_values(|e: Entity| e.uid@);
    let kb = sb.map_values(|e: Entity| e.uid@);
    lemma_key_order_asymmetric();
    assert forall|i: int, j: int| 0 <= i < j < ka.len() implies key_order()(#[trigger] ka[i], #[trigger] ka[j]) by {
        assert(key_lt(sa[i].uid@, sa[j].uid@));
    }
    assert forall|i: int, j: int| 0 <= i < j < kb.len() implies key_order()(#[trigger] kb[i], #[trigger] kb[j]) by {
        assert(key_lt(sb[i].uid@, sb[j].uid@));
    }
    assert forall|x: Seq<char>| ka.contains(x) <==> kb.contains(x) by {
        if ka.contains(x) {
            let i = choose|i: int| 0 <= i < ka.len() && ka[i] == x;
            lemma_entity_map_at(sa, i);
            assert(entity_map(sb).contains_key(x));
            let j = choose|j: int| 0 <= j < sb.len() && sb[j].uid@ == x;
            assert(kb[j] == x);
        }
        if kb.contains(x) {
            let i = choose|i: int| 0 <= i < kb.len() && kb[i] == x;
            lemma_entity_map_at(sb, i);
            assert(entity_map(sa).contains_key(x));
            let j = choose|j: int| 0 <= j < sa.len() && sa[j].uid@ == x;
            assert(ka[j] == x);
        }
    }
    lemma_increasing_unique(ka, kb, key_order());
    assert forall|i: int| 0 <= i < sa.len() implies graph_deep(a)[i] == graph_deep(b)[i] by {
        assert(ka[i] == kb[i]);
        lemma_entity_map_at(sa, i);
        lemma_entity_map_at(sb, i);
        assert(sa[i].wf());
        assert(sb[i].wf());
        lemma_props_canonical(sa[i].props@, sb[i].props@);
        lemma_edges_canonical(sa[i].edges@, sb[i].edges@);
    }
    assert(graph_deep(a) =~= graph_deep(b));
}

/// Replicas converge: two well-formed graphs built from the empty graph by
/// merging the same deltas (each with its envelope metadata), in any order,
/// are stored identically, so they encode, and commit, alike.
pub proof fn lemma_replicas_converge(
    a: GraphState,
    b: GraphState,
    log_a: Seq<(DeltaView, MergeCtx)>,
    log_b: Seq<(DeltaView, MergeCtx)>,
)
    requires
        a.wf(),
        b.wf(),
        a@ == merge_all(Map::<Seq<char>, EntityView>::empty(), log_a),
        b@ == merge_all(Map::<Seq<char>, EntityView>::empty(), log_b),
        log_a.to_multiset() == log_b.to_multiset(),
    ensures
        a@ == b@,
        graph_deep(a) == graph_deep(b),
{
    lemma_merge_order_free(Map::<Seq<char>, EntityView>::empty(), log_a, log_b);
    lemma_state_canonical(a, b);
}
} // verus!
