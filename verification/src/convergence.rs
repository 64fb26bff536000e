//! Order independence of merging: any two deltas fold into the same graph in
//! either order, and folding a delta a second time changes nothing.

use vstd::prelude::*;
use vstd::utf8::{encode_utf8, encode_utf8_decode_utf8};
use crate::graph::{DeltaView, EdgeView, EntityView, PatchView, RegisterView, entity_or_new};
use crate::hlc::lemma_hlc_order;
use crate::merge::{edges_new, patches_applied};
use crate::merge::{
    MergeCtx, RegisterLaw, apply_delta, apply_edge, apply_edges, apply_patch, apply_patches,
    incoming_register, incoming_wins, law_of, postcard_str, reg_lt, varint,
};
use crate::order::{lemma_lex_asymmetric, lemma_lex_irreflexive, lemma_lex_total, lemma_lex_transitive};

verus! {

broadcast use vstd::array::group_array_axioms;

/// The varint prefix tells where the bytes behind it start.
proof fn lemma_varint_prefix(a: nat, b: nat, x: Seq<u8>, y: Seq<u8>)
    requires
        varint(a) + x == varint(b) + y,
    ensures
        a == b,
        x == y,
    decreases a,
{
    let l = varint(a) + x;
    let r = varint(b) + y;
    assert(l[0] == r[0]);
    if a < 128 && b < 128 {
        assert(l.drop_first() =~= x);
        assert(r.drop_first() =~= y);
    } else if a >= 128 && b >= 128 {
        assert(l.drop_first() =~= varint(a / 128) + x);
        assert(r.drop_first() =~= varint(b / 128) + y);
        lemma_varint_prefix(a / 128, b / 128, x, y);
    } else {
        assert(false);
    }
}

/// Distinct strings have distinct postcard encodings.
pub proof fn lemma_postcard_str_injective(s: Seq<char>, t: Seq<char>)
    requires
        postcard_str(s) == postcard_str(t),
    ensures
        s == t,
{
    lemma_varint_prefix(encode_utf8(s).len(), encode_utf8(t).len(), encode_utf8(s), encode_utf8(t));
    encode_utf8_decode_utf8(s);
    encode_utf8_decode_utf8(t);
}

/// The register order is a strict total order.
pub proof fn lemma_reg_order(a: RegisterView, b: RegisterView, c: RegisterView)
    ensures
        !reg_lt(a, a),
        !(reg_lt(a, b) && reg_lt(b, a)),
        a == b || reg_lt(a, b) || reg_lt(b, a),
        reg_lt(a, b) && reg_lt(b, c) ==> reg_lt(a, c),
{
    lemma_hlc_order(a.hlc, b.hlc, c.hlc);
    lemma_lex_irreflexive(a.writer@);
    lemma_lex_asymmetric(a.writer@, b.writer@);
    lemma_lex_total(a.writer@, b.writer@);
    lemma_lex_irreflexive(postcard_str(a.value));
    lemma_lex_asymmetric(postcard_str(a.value), postcard_str(b.value));
    lemma_lex_total(postcard_str(a.value), postcard_str(b.value));
    if a.writer@ =~= b.writer@ {
        assert(a.writer =~= b.writer);
    }
    if postcard_str(a.value) =~= postcard_str(b.value) {
        lemma_postcard_str_injective(a.value, b.value);
    }
    if reg_lt(a, b) && reg_lt(b, c) {
        if a.hlc == b.hlc && b.hlc == c.hlc && a.tier == b.tier && b.tier == c.tier {
            if crate::order::lex_lt(a.writer@, b.writer@) && crate::order::lex_lt(b.writer@, c.writer@) {
                lemma_lex_transitive(a.writer@, b.writer@, c.writer@);
            }
            if a.writer == b.writer && b.writer == c.writer && crate::order::lex_lt(
                postcard_str(a.value),
                postcard_str(b.value),
            ) && crate::order::lex_lt(postcard_str(b.value), postcard_str(c.value)) {
                lemma_lex_transitive(postcard_str(a.value), postcard_str(b.value), postcard_str(c.value));
            }
        }
    }
    if a == b {
    } else if !reg_lt(a, b) && !reg_lt(b, a) {
        assert(a =~= b);
    }
}

/// One step of a merge: a property patch under its envelope metadata, or an edge.
pub enum MergeOp {
    Prop(PatchView, MergeCtx),
    Edge(EdgeView),
}

/// The entity an operation writes to.
pub open spec fn op_uid(op: MergeOp) -> Seq<char> {
    match op {
        MergeOp::Prop(p, _) => p.uid,
        MergeOp::Edge(e) => e.from,
    }
}

/// What a property write leaves in its slot, given what was there.
pub open spec fn slot_after(law: RegisterLaw, cur: Option<RegisterView>, inc: RegisterView) -> RegisterView {
    match cur {
        None => inc,
        Some(c) => if incoming_wins(law, inc, c) {
            inc
        } else {
            c
        },
    }
}

pub open spec fn slot(e: EntityView, key: Seq<char>) -> Option<RegisterView> {
    if e.props.contains_key(key) {
        Some(e.props[key])
    } else {
        None
    }
}

/// The entity after an operation.
pub open spec fn op_on(op: MergeOp, e: EntityView) -> EntityView {
    match op {
        MergeOp::Prop(p, ctx) => EntityView {
            props: e.props.insert(
                p.key,
                slot_after(law_of(p.uid), slot(e, p.key), incoming_register(p, ctx)),
            ),
            ..e
        },
        MergeOp::Edge(edge) => EntityView { edges: e.edges.insert(edge), ..e },
    }
}

/// The graph after an operation.
pub open spec fn apply_op(g: Map<Seq<char>, EntityView>, op: MergeOp) -> Map<Seq<char>, EntityView> {
    g.insert(op_uid(op), op_on(op, entity_or_new(g, op_uid(op))))
}

pub open spec fn apply_ops(g: Map<Seq<char>, EntityView>, ops: Seq<MergeOp>) -> Map<Seq<char>, EntityView>
    decreases ops.len(),
{
    if ops.len() == 0 {
        g
    } else {
        apply_op(apply_ops(g, ops.drop_last()), ops.last())
    }
}

/// A delta as a sequence of operations: its property patches, then its edges.
pub open spec fn delta_ops(d: DeltaView, ctx: MergeCtx) -> Seq<MergeOp> {
    d.props.map_values(|p: PatchView| MergeOp::Prop(p, ctx)) + d.edges.map_values(
        |e: EdgeView| MergeOp::Edge(e),
    )
}

proof fn lemma_apply_patch_is_op(g: Map<Seq<char>, EntityView>, p: PatchView, ctx: MergeCtx)
    ensures
        apply_patch(g, p, ctx) == apply_op(g, MergeOp::Prop(p, ctx)),
{
    let e = entity_or_new(g, p.uid);
    if crate::merge::patch_wins(g, p, ctx) {
        assert(op_on(MergeOp::Prop(p, ctx), e) =~= EntityView {
            props: e.props.insert(p.key, incoming_register(p, ctx)),
            ..e
        });
    } else {
        assert(op_on(MergeOp::Prop(p, ctx), e) =~= e);
    }
    assert(apply_patch(g, p, ctx) =~= apply_op(g, MergeOp::Prop(p, ctx)));
}

proof fn lemma_apply_ops_append(g: Map<Seq<char>, EntityView>, s: Seq<MergeOp>, t: Seq<MergeOp>)
    ensures
        apply_ops(g, s + t) == apply_ops(apply_ops(g, s), t),
    decreases t.len(),
{
    if t.len() == 0 {
        assert(s + t =~= s);
    } else {
        assert((s + t).drop_last() =~= s + t.drop_last());
        lemma_apply_ops_append(g, s, t.drop_last());
    }
}

proof fn lemma_patches_are_ops(g: Map<Seq<char>, EntityView>, ps: Seq<PatchView>, ctx: MergeCtx)
    ensures
        apply_patches(g, ps, ctx) == apply_ops(g, ps.map_values(|p: PatchView| MergeOp::Prop(p, ctx))),
    decreases ps.len(),
{
    let ops = ps.map_values(|p: PatchView| MergeOp::Prop(p, ctx));
    if ps.len() > 0 {
        assert(ops.drop_last() =~= ps.drop_last().map_values(|p: PatchView| MergeOp::Prop(p, ctx)));
        lemma_patches_are_ops(g, ps.drop_last(), ctx);
        lemma_apply_patch_is_op(apply_patches(g, ps.drop_last(), ctx), ps.last(), ctx);
    }
}

proof fn lemma_edges_are_ops(g: Map<Seq<char>, EntityView>, es: Seq<EdgeView>)
    ensures
        apply_edges(g, es) == apply_ops(g, es.map_values(|e: EdgeView| MergeOp::Edge(e))),
    decreases es.len(),
{
    let ops = es.map_values(|e: EdgeView| MergeOp::Edge(e));
    if es.len() > 0 {
        assert(ops.drop_last() =~= es.drop_last().map_values(|e: EdgeView| MergeOp::Edge(e)));
        lemma_edges_are_ops(g, es.drop_last());
        let h = apply_edges(g, es.drop_last());
        assert(apply_edge(h, es.last()) =~= apply_op(h, MergeOp::Edge(es.last())));
    }
}

/// Merging a delta is applying its operations in order.
pub proof fn lemma_delta_is_ops(g: Map<Seq<char>, EntityView>, d: DeltaView, ctx: MergeCtx)
    ensures
        apply_delta(g, d, ctx) == apply_ops(g, delta_ops(d, ctx)),
{
    lemma_patches_are_ops(g, d.props, ctx);
    lemma_edges_are_ops(apply_patches(g, d.props, ctx), d.edges);
    lemma_apply_ops_append(
        g,
        d.props.map_values(|p: PatchView| MergeOp::Prop(p, ctx)),
        d.edges.map_values(|e: EdgeView| MergeOp::Edge(e)),
    );
}

/// Two writes to one slot under one law leave the same register in either order.
proof fn lemma_slot_commutes(law: RegisterLaw, cur: Option<RegisterView>, a: RegisterView, b: RegisterView)
    ensures
        slot_after(law, Some(slot_after(law, cur, a)), b) == slot_after(law, Some(slot_after(law, cur, b)), a),
        slot_after(law, Some(slot_after(law, cur, a)), a) == slot_after(law, cur, a),
{
    lemma_reg_order(a, b, a);
    lemma_reg_order(a, a, a);
    lemma_reg_order(b, b, b);
    match cur {
        None => {},
        Some(c) => {
            lemma_reg_order(a, b, c);
            lemma_reg_order(a, c, b);
            lemma_reg_order(b, a, c);
            lemma_reg_order(b, c, a);
            lemma_reg_order(c, a, b);
            lemma_reg_order(c, b, a);
        },
    }
}

/// Two operations on the same entity commute, and each is idempotent.
proof fn lemma_entity_ops_commute(a: MergeOp, b: MergeOp, e: EntityView)
    requires
        op_uid(a) == op_uid(b),
    ensures
        op_on(b, op_on(a, e)) == op_on(a, op_on(b, e)),
        op_on(a, op_on(a, e)) == op_on(a, e),
{
    match (a, b) {
        (MergeOp::Prop(p, c1), MergeOp::Prop(q, c2)) => {
            lemma_slot_commutes(law_of(p.uid), slot(e, p.key), incoming_register(p, c1), incoming_register(q, c2));
            assert(op_on(a, op_on(a, e)).props =~= op_on(a, e).props);
            if p.key == q.key {
                assert(op_on(b, op_on(a, e)).props =~= op_on(a, op_on(b, e)).props);
            } else {
                assert(slot(op_on(a, e), q.key) == slot(e, q.key));
                assert(slot(op_on(b, e), p.key) == slot(e, p.key));
                assert(op_on(b, op_on(a, e)).props =~= op_on(a, op_on(b, e)).props);
            }
            assert(op_on(b, op_on(a, e)) =~= op_on(a, op_on(b, e)));
            assert(op_on(a, op_on(a, e)) =~= op_on(a, e));
        },
        (MergeOp::Edge(x), MergeOp::Edge(y)) => {
            assert(op_on(b, op_on(a, e)) =~= op_on(a, op_on(b, e)));
            assert(op_on(a, op_on(a, e)) =~= op_on(a, e));
        },
        (MergeOp::Prop(p, c1), MergeOp::Edge(y)) => {
            lemma_slot_commutes(law_of(p.uid), slot(e, p.key), incoming_register(p, c1), incoming_register(p, c1));
            assert(op_on(b, op_on(a, e)) =~= op_on(a, op_on(b, e)));
            assert(op_on(a, op_on(a, e)).props =~= op_on(a, e).props);
            assert(op_on(a, op_on(a, e)) =~= op_on(a, e));
        },
        (MergeOp::Edge(x), MergeOp::Prop(q, c2)) => {
            assert(op_on(b, op_on(a, e)) =~= op_on(a, op_on(b, e)));
            assert(op_on(a, op_on(a, e)) =~= op_on(a, e));
        },
    }
}

/// Any two operations commute on any graph.
pub proof fn lemma_op_commutes(g: Map<Seq<char>, EntityView>, a: MergeOp, b: MergeOp)
    ensures
        apply_op(apply_op(g, a), b) == apply_op(apply_op(g, b), a),
        apply_op(apply_op(g, a), a) == apply_op(g, a),
{
    let ka = op_uid(a);
    let kb = op_uid(b);
    let ea = entity_or_new(g, ka);
    let eb = entity_or_new(g, kb);
    if ka == kb {
        lemma_entity_ops_commute(a, b, ea);
        assert(entity_or_new(apply_op(g, a), kb) == op_on(a, ea));
        assert(entity_or_new(apply_op(g, b), ka) == op_on(b, eb));
        assert(apply_op(apply_op(g, a), b) =~= apply_op(apply_op(g, b), a));
    } else {
        assert(entity_or_new(apply_op(g, a), kb) == eb);
        assert(entity_or_new(apply_op(g, b), ka) == ea);
        assert(apply_op(apply_op(g, a), b) =~= apply_op(apply_op(g, b), a));
        lemma_entity_ops_commute(a, a, ea);
    }
    lemma_entity_ops_commute(a, a, ea);
    assert(entity_or_new(apply_op(g, a), ka) == op_on(a, ea));
    assert(apply_op(apply_op(g, a), a) =~= apply_op(g, a));
}

proof fn lemma_ops_commute_one(g: Map<Seq<char>, EntityView>, s: Seq<MergeOp>, b: MergeOp)
    ensures
        apply_op(apply_ops(g, s), b) == apply_ops(apply_op(g, b), s),
    decreases s.len(),
{
    if s.len() > 0 {
        lemma_ops_commute_one(g, s.drop_last(), b);
        lemma_op_commutes(apply_ops(g, s.drop_last()), s.last(), b);
    }
}

/// Two operation sequences give the same graph in either order.
pub proof fn lemma_ops_commute(g: Map<Seq<char>, EntityView>, s: Seq<MergeOp>, t: Seq<MergeOp>)
    ensures
        apply_ops(apply_ops(g, s), t) == apply_ops(apply_ops(g, t), s),
    decreases t.len(),
{
    if t.len() > 0 {
        lemma_ops_commute(g, s, t.drop_last());
        lemma_ops_commute_one(apply_ops(g, t.drop_last()), s, t.last());
    }
}

/// An operation already in a sequence changes nothing when applied again.
proof fn lemma_op_absorbed(g: Map<Seq<char>, EntityView>, s: Seq<MergeOp>, a: MergeOp)
    requires
        s.contains(a),
    ensures
        apply_op(apply_ops(g, s), a) == apply_ops(g, s),
    decreases s.len(),
{
    let rest = s.drop_last();
    let r = apply_ops(g, rest);
    if s.last() == a {
        lemma_op_commutes(r, a, a);
    } else {
        let i = choose|i: int| 0 <= i < s.len() && s[i] == a;
        assert(rest[i] == a);
        lemma_op_absorbed(g, rest, a);
        lemma_op_commutes(r, s.last(), a);
    }
}

proof fn lemma_ops_absorbed(g: Map<Seq<char>, EntityView>, s: Seq<MergeOp>, t: Seq<MergeOp>)
    requires
        forall|i: int| 0 <= i < t.len() ==> s.contains(#[trigger] t[i]),
    ensures
        apply_ops(apply_ops(g, s), t) == apply_ops(g, s),
    decreases t.len(),
{
    if t.len() > 0 {
        lemma_ops_absorbed(g, s, t.drop_last());
        assert(s.contains(t[t.len() - 1]));
        lemma_op_absorbed(g, s, t.last());
    }
}

/// Merge order does not matter: folding `d1` then `d2` gives the same graph as
/// folding `d2` then `d1`, whatever the graph, deltas and envelope metadata.
pub proof fn lemma_merge_commutes(
    g: Map<Seq<char>, EntityView>,
    d1: DeltaView,
    c1: MergeCtx,
    d2: DeltaView,
    c2: MergeCtx,
)
    ensures
        apply_delta(apply_delta(g, d1, c1), d2, c2) == apply_delta(apply_delta(g, d2, c2), d1, c1),
{
    lemma_delta_is_ops(g, d1, c1);
    lemma_delta_is_ops(g, d2, c2);
    lemma_delta_is_ops(apply_delta(g, d1, c1), d2, c2);
    lemma_delta_is_ops(apply_delta(g, d2, c2), d1, c1);
    lemma_ops_commute(g, delta_ops(d1, c1), delta_ops(d2, c2));
}

/// Replaying a delta is harmless: folding it a second time leaves the graph as it was.
pub proof fn lemma_merge_idempotent(g: Map<Seq<char>, EntityView>, d: DeltaView, c: MergeCtx)
    ensures
        apply_delta(apply_delta(g, d, c), d, c) == apply_delta(g, d, c),
{
    lemma_delta_is_ops(g, d, c);
    lemma_delta_is_ops(apply_delta(g, d, c), d, c);
    let s = delta_ops(d, c);
    assert forall|i: int| 0 <= i < s.len() implies s.contains(#[trigger] s[i]) by {}
    lemma_ops_absorbed(g, s, s);
}

/// The graph after merging each delta in turn under its envelope metadata.
pub open spec fn merge_all(g: Map<Seq<char>, EntityView>, ds: Seq<(DeltaView, MergeCtx)>) -> Map<Seq<char>, EntityView>
    decreases ds.len(),
{
    if ds.len() == 0 {
        g
    } else {
        apply_delta(merge_all(g, ds.drop_last()), ds.last().0, ds.last().1)
    }
}

/// The operations of a sequence of deltas, one after another.
pub open spec fn all_ops(ds: Seq<(DeltaView, MergeCtx)>) -> Seq<MergeOp>
    decreases ds.len(),
{
    if ds.len() == 0 {
        Seq::empty()
    } else {
        all_ops(ds.drop_last()) + delta_ops(ds.last().0, ds.last().1)
    }
}

proof fn lemma_merge_all_is_ops(g: Map<Seq<char>, EntityView>, ds: Seq<(DeltaView, MergeCtx)>)
    ensures
        merge_all(g, ds) == apply_ops(g, all_ops(ds)),
    decreases ds.len(),
{
    if ds.len() > 0 {
        lemma_merge_all_is_ops(g, ds.drop_last());
        lemma_delta_is_ops(merge_all(g, ds.drop_last()), ds.last().0, ds.last().1);
        lemma_apply_ops_append(g, all_ops(ds.drop_last()), delta_ops(ds.last().0, ds.last().1));
    }
}

/// Merging one run of deltas and then another is merging the two runs joined.
pub proof fn lemma_merge_all_append(g: Map<Seq<char>, EntityView>, a: Seq<(DeltaView, MergeCtx)>, b: Seq<(DeltaView, MergeCtx)>)
    ensures
        merge_all(g, a + b) == merge_all(merge_all(g, a), b),
    decreases b.len(),
{
    if b.len() == 0 {
        assert(a + b =~= a);
    } else {
        assert((a + b).drop_last() =~= a + b.drop_last());
        lemma_merge_all_append(g, a, b.drop_last());
    }
}

/// Merging one delta before a run of deltas or after it gives the same graph.
pub proof fn lemma_merge_moves_past(g: Map<Seq<char>, EntityView>, x: (DeltaView, MergeCtx), ds: Seq<(DeltaView, MergeCtx)>)
    ensures
        merge_all(apply_delta(g, x.0, x.1), ds) == apply_delta(merge_all(g, ds), x.0, x.1),
{
    let h = apply_delta(g, x.0, x.1);
    lemma_merge_all_is_ops(h, ds);
    lemma_merge_all_is_ops(g, ds);
    lemma_delta_is_ops(g, x.0, x.1);
    lemma_delta_is_ops(merge_all(g, ds), x.0, x.1);
    lemma_ops_commute(g, delta_ops(x.0, x.1), all_ops(ds));
}

/// Convergence: replicas that merge the same deltas (with the same envelope
/// metadata), in any order, hold the same graph.
pub proof fn lemma_merge_order_free(
    g: Map<Seq<char>, EntityView>,
    ds1: Seq<(DeltaView, MergeCtx)>,
    ds2: Seq<(DeltaView, MergeCtx)>,
)
    requires
        ds1.to_multiset() == ds2.to_multiset(),
    ensures
        merge_all(g, ds1) == merge_all(g, ds2),
    decreases ds1.len(),
{
    broadcast use vstd::seq_lib::group_to_multiset_ensures;
    ds1.to_multiset_ensures();
    ds2.to_multiset_ensures();
    if ds1.len() == 0 {
        assert(ds2.len() == 0);
        assert(ds2 =~= ds1);
    } else {
        let x = ds1.last();
        let rest1 = ds1.drop_last();
        assert(ds1 =~= rest1.push(x));
        rest1.to_multiset_ensures();
        assert(ds1.to_multiset().count(x) > 0);
        assert(ds2.contains(x));
        let k = choose|k: int| 0 <= k < ds2.len() && ds2[k] == x;
        let pre = ds2.subrange(0, k);
        let post = ds2.subrange(k + 1, ds2.len() as int);
        let rest2 = ds2.remove(k);
        assert(rest2 =~= pre + post);
        assert(rest2.to_multiset() =~= ds2.to_multiset().remove(x));
        assert(rest1.to_multiset() =~= ds1.to_multiset().remove(x));
        lemma_merge_order_free(g, rest1, rest2);
        assert(ds2 =~= (pre + seq![x]) + post);
        lemma_merge_all_append(g, pre + seq![x], post);
        assert((pre + seq![x]).drop_last() =~= pre);
        lemma_merge_moves_past(merge_all(g, pre), x, post);
        lemma_merge_all_append(g, pre, post);
    }
}


proof fn lemma_replay_patches(h: Map<Seq<char>, EntityView>, ps: Seq<PatchView>, ctx: MergeCtx, ops: Seq<MergeOp>, k: int)
    requires
        0 <= k <= ps.len(),
        forall|op: MergeOp| ops.contains(op) ==> #[trigger] apply_op(h, op) == h,
        forall|i: int| 0 <= i < ps.len() ==> ops.contains(MergeOp::Prop(#[trigger] ps[i], ctx)),
    ensures
        apply_patches(h, ps.take(k), ctx) == h,
        patches_applied(h, ps.take(k), ctx) == 0,
    decreases k,
{
    if k > 0 {
        lemma_replay_patches(h, ps, ctx, ops, k - 1);
        assert(ps.take(k).drop_last() =~= ps.take(k - 1));
        let p = ps[k - 1];
        assert(ps.take(k).last() == p);
        assert(ops.contains(MergeOp::Prop(p, ctx)));
        lemma_apply_patch_is_op(h, p, ctx);
        assert(apply_patch(h, p, ctx) == h);
        if crate::merge::patch_wins(h, p, ctx) {
            let e = entity_or_new(h, p.uid);
            let inc = incoming_register(p, ctx);
            assert(h.insert(p.uid, EntityView { props: e.props.insert(p.key, inc), ..e }) == h);
            assert(h.contains_key(p.uid));
            assert(h[p.uid] == e);
            assert(e.props.insert(p.key, inc)[p.key] == inc);
            assert(e.props.contains_key(p.key));
            assert(e.props[p.key] == inc);
            lemma_reg_order(inc, inc, inc);
        }
    } else {
        assert(ps.take(0) =~= Seq::<PatchView>::empty());
    }
}

proof fn lemma_replay_edges(h: Map<Seq<char>, EntityView>, es: Seq<EdgeView>, ops: Seq<MergeOp>, k: int)
    requires
        0 <= k <= es.len(),
        forall|op: MergeOp| ops.contains(op) ==> #[trigger] apply_op(h, op) == h,
        forall|i: int| 0 <= i < es.len() ==> ops.contains(MergeOp::Edge(#[trigger] es[i])),
    ensures
        apply_edges(h, es.take(k)) == h,
        edges_new(h, es.take(k)) == 0,
    decreases k,
{
    if k > 0 {
        lemma_replay_edges(h, es, ops, k - 1);
        assert(es.take(k).drop_last() =~= es.take(k - 1));
        let e = es[k - 1];
        assert(es.take(k).last() == e);
        assert(ops.contains(MergeOp::Edge(e)));
        assert(apply_edge(h, e) =~= apply_op(h, MergeOp::Edge(e)));
        let ent = entity_or_new(h, e.from);
        assert(h.insert(e.from, EntityView { edges: ent.edges.insert(e), ..ent }) == h);
        assert(h.contains_key(e.from));
        assert(h[e.from].edges == ent.edges.insert(e));
        assert(ent.edges.contains(e));
    } else {
        assert(es.take(0) =~= Seq::<EdgeView>::empty());
    }
}

/// Replaying a delta reports nothing new: on the graph a delta has just been
/// merged into, the delta's patches leave the graph as it is and none of them
/// takes its slot, and none of its edges is new.
pub proof fn lemma_replay_reports_nothing(g: Map<Seq<char>, EntityView>, d: DeltaView, ctx: MergeCtx)
    ensures
        ({
            let h = apply_delta(g, d, ctx);
            &&& apply_delta(h, d, ctx) == h
            &&& apply_patches(h, d.props, ctx) == h
            &&& patches_applied(h, d.props, ctx) == 0
            &&& edges_new(apply_patches(h, d.props, ctx), d.edges) == 0
        }),
{
    let ops = delta_ops(d, ctx);
    let h = apply_delta(g, d, ctx);
    lemma_delta_is_ops(g, d, ctx);
    assert forall|op: MergeOp| ops.contains(op) implies #[trigger] apply_op(h, op) == h by {
        lemma_op_absorbed(g, ops, op);
    }
    assert forall|i: int| 0 <= i < d.props.len() implies ops.contains(MergeOp::Prop(#[trigger] d.props[i], ctx)) by {
        assert(ops[i] == MergeOp::Prop(d.props[i], ctx));
    }
    assert forall|i: int| 0 <= i < d.edges.len() implies ops.contains(MergeOp::Edge(#[trigger] d.edges[i])) by {
        assert(ops[d.props.len() + i] == MergeOp::Edge(d.edges[i]));
    }
    lemma_replay_patches(h, d.props, ctx, ops, d.props.len() as int);
    lemma_replay_edges(h, d.edges, ops, d.edges.len() as int);
    assert(d.props.take(d.props.len() as int) =~= d.props);
    assert(d.edges.take(d.edges.len() as int) =~= d.edges);
}

} // verus!
