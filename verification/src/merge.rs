//! Deterministic merge of graph deltas: no trust gates and no rejection
//! paths, so every valid packet folds into state the same way in every order.
//! Mutable classes keep the greatest write (last-writer-wins); append-only
//! classes keep the least (first-writer-wins), so a later rewrite is shadowed.

use vstd::prelude::*;
use vstd::utf8::encode_utf8;
use crate::graph::{DeltaView, Edge, EdgeView, EntityView, GraphDelta, GraphState, PatchView, PropPatch, PropRegister, RegisterView, entity_or_new};
use crate::hash::B3;
use crate::hlc::{Hlc, hlc_lt};
use crate::order::{lex_lt, bytes_lt, str_eq};

verus! {

/// The schema and policy a merge engine was built for.
#[derive(Debug)]
pub struct MergePolicy {
    pub schema_hash: B3,
    pub policy_hash: B3,
}

impl MergePolicy {
    pub fn new(schema_hash: B3, policy_hash: B3) -> (r: Self)
        ensures
            r.schema_hash == schema_hash,
            r.policy_hash == policy_hash,
    {
        MergePolicy { schema_hash, policy_hash }
    }
}

/// Register metadata taken from a verified packet envelope, never from the delta.
#[derive(Clone, Copy, Debug)]
pub struct MergeCtx {
    pub hlc: Hlc,
    pub tier: u8,
    pub writer: [u8; 8],
}

/// How a property register resolves concurrent writes.
#[derive(Clone, Copy, Debug)]
pub enum RegisterLaw {
    /// Mutable classes: the greatest write wins.
    LastWriteWins,
    /// Append-only classes: the least write wins; later writes are shadowed.
    FirstWriteWins,
}

/// What one merge did.
#[derive(Clone, Copy, Debug)]
pub struct MergeReport {
    pub props_applied: usize,
    /// Writes that lost, immutability-violation attempts among them.
    pub props_shadowed: usize,
    pub edges_added: usize,
}

/// Where the class prefix of a uid ends: at its first ':' or at its end.
pub open spec fn class_end(uid: Seq<char>) -> int
    decreases uid.len(),
{
    if uid.len() == 0 || uid[0] == ':' {
        0
    } else {
        1 + class_end(uid.drop_first())
    }
}

/// The class of a uid: the text before its first ':' (all of it when there is none).
pub open spec fn class_of_spec(uid: Seq<char>) -> Seq<char> {
    uid.take(class_end(uid))
}

proof fn lemma_class_end(uid: Seq<char>, i: int)
    requires
        0 <= i <= uid.len(),
        forall|j: int| 0 <= j < i ==> uid[j] != ':',
    ensures
        class_end(uid) == i + class_end(uid.skip(i)),
        0 <= class_end(uid) <= uid.len(),
    decreases i,
{
    lemma_class_end_bounds(uid);
    if i > 0 {
        let t = uid.drop_first();
        assert forall|j: int| 0 <= j < i - 1 implies t[j] != ':' by {
            assert(uid[j + 1] != ':');
        }
        lemma_class_end(t, i - 1);
        assert(t.skip(i - 1) =~= uid.skip(i));
    } else {
        assert(uid.skip(0) =~= uid);
    }
}

proof fn lemma_class_end_bounds(uid: Seq<char>)
    ensures
        0 <= class_end(uid) <= uid.len(),
        class_end(uid) < uid.len() ==> uid[class_end(uid)] == ':',
        forall|j: int| 0 <= j < class_end(uid) ==> uid[j] != ':',
    decreases uid.len(),
{
    if uid.len() > 0 && uid[0] != ':' {
        lemma_class_end_bounds(uid.drop_first());
        let t = uid.drop_first();
        assert forall|j: int| 0 <= j < class_end(uid) implies uid[j] != ':' by {
            if j > 0 {
                assert(uid[j] == t[j - 1]);
            }
        }
    }
}

/// The class of a uid: the text before its first ':'.
pub fn class_of(uid: &str) -> (r: &str)
    ensures
        r@ == class_of_spec(uid@),
{
    let n = uid.unicode_len();
    let mut i: usize = 0;
    while i < n
        invariant
            n == uid@.len(),
            i <= n,
            forall|j: int| 0 <= j < i ==> uid@[j] != ':',
        ensures
            i <= n,
            forall|j: int| 0 <= j < i ==> uid@[j] != ':',
            i < n ==> uid@[i as int] == ':',
        decreases n - i,
    {
        if uid.get_char(i) == ':' {
            break;
        }
        i = i + 1;
    }
    proof {
        lemma_class_end_bounds(uid@);
        lemma_class_end(uid@, i as int);
        if i < n {
            assert(uid@.skip(i as int)[0] == ':');
        }
        assert(uid@.subrange(0, i as int) =~= uid@.take(class_end(uid@)));
    }
    uid.substring_char(0, i)
}

/// The register law of a uid: first-writer-wins for the append-only classes
/// `fact`, `episode`, `attestation` and `score`, last-writer-wins otherwise.
pub open spec fn law_of(uid: Seq<char>) -> RegisterLaw {
    let c = class_of_spec(uid);
    if c == "fact"@ || c == "episode"@ || c == "attestation"@ || c == "score"@ {
        RegisterLaw::FirstWriteWins
    } else {
        RegisterLaw::LastWriteWins
    }
}

/// Whether `c` is one of the append-only classes.
pub open spec fn append_only_class(c: Seq<char>) -> bool {
    c == "fact"@ || c == "episode"@ || c == "attestation"@ || c == "score"@
}

/// A uid split at its first ':': the text before it holds no ':'.
pub open spec fn splits_at_first_colon(uid: Seq<char>, c: Seq<char>, rest: Seq<char>) -> bool {
    &&& uid == c + seq![':'] + rest
    &&& forall|j: int| 0 <= j < c.len() ==> c[j] != ':'
}

/// The class of a uid is the text before its first ':', whatever follows it
/// (more ':' among it), and all of a uid that has no ':'.
pub proof fn lemma_class_is_text_before_first_colon(uid: Seq<char>, c: Seq<char>, rest: Seq<char>)
    ensures
        splits_at_first_colon(uid, c, rest) ==> class_of_spec(uid) == c,
        (forall|j: int| 0 <= j < uid.len() ==> uid[j] != ':') ==> class_of_spec(uid) == uid,
{
    if splits_at_first_colon(uid, c, rest) {
        assert forall|j: int| 0 <= j < c.len() implies uid[j] != ':' by {
            assert(uid[j] == c[j]);
        }
        lemma_class_end(uid, c.len() as int);
        assert(uid.skip(c.len() as int)[0] == ':');
        assert(class_end(uid.skip(c.len() as int)) == 0);
        assert(uid.take(c.len() as int) =~= c);
    }
    if forall|j: int| 0 <= j < uid.len() ==> uid[j] != ':' {
        lemma_class_end(uid, uid.len() as int);
        assert(class_end(uid.skip(uid.len() as int)) == 0);
        assert(uid.take(uid.len() as int) =~= uid);
    }
}

/// The register law depends on a uid only through the text before its first
/// ':': first-writer-wins exactly when that text is `fact`, `episode`,
/// `attestation` or `score` (so "fact:paper:42" is first-writer-wins), and
/// likewise for a uid without ':' by the whole uid.
pub proof fn lemma_law_by_class(uid: Seq<char>, c: Seq<char>, rest: Seq<char>)
    ensures
        splits_at_first_colon(uid, c, rest) ==> ((law_of(uid) is FirstWriteWins) <==> append_only_class(c)),
        (forall|j: int| 0 <= j < uid.len() ==> uid[j] != ':') ==> ((law_of(uid) is FirstWriteWins)
            <==> append_only_class(uid)),
{
    lemma_class_is_text_before_first_colon(uid, c, rest);
}

pub fn law_for(uid: &str) -> (r: RegisterLaw)
    ensures
        r == law_of(uid@),
        forall|c: Seq<char>, rest: Seq<char>|
            #[trigger] splits_at_first_colon(uid@, c, rest) ==> ((r is FirstWriteWins) <==> append_only_class(c)),
        (forall|j: int| 0 <= j < uid@.len() ==> uid@[j] != ':') ==> ((r is FirstWriteWins) <==> append_only_class(uid@)),
{
    proof {
        assert forall|c: Seq<char>, rest: Seq<char>|
            #[trigger] splits_at_first_colon(uid@, c, rest) implies ((law_of(uid@) is FirstWriteWins) <==> append_only_class(c)) by {
            lemma_law_by_class(uid@, c, rest);
        }
        lemma_law_by_class(uid@, Seq::empty(), Seq::empty());
    }
    let c = class_of(uid);
    if str_eq(c, "fact") || str_eq(c, "episode") || str_eq(c, "attestation") || str_eq(c, "score") {
        RegisterLaw::FirstWriteWins
    } else {
        RegisterLaw::LastWriteWins
    }
}

/// A later write to an occupied property slot is shadowed when the uid's class
/// (the text before its first ':', or the whole uid without one) is append-only,
/// and replaces the register otherwise: merging such a patch applies it exactly
/// when the class is not `fact`, `episode`, `attestation` or `score`.
pub proof fn lemma_later_write_by_class(
    g: Map<Seq<char>, EntityView>,
    p: PatchView,
    ctx: MergeCtx,
    c: Seq<char>,
    rest: Seq<char>,
)
    requires
        splits_at_first_colon(p.uid, c, rest) || (c == p.uid && forall|j: int| 0 <= j < p.uid.len() ==> p.uid[j] != ':'),
        g.contains_key(p.uid),
        g[p.uid].props.contains_key(p.key),
        hlc_lt(g[p.uid].props[p.key].hlc, ctx.hlc),
    ensures
        append_only_class(c) ==> patches_applied(g, seq![p], ctx) == 0 && apply_patches(g, seq![p], ctx)[p.uid].props[p.key]
            == g[p.uid].props[p.key],
        !append_only_class(c) ==> patches_applied(g, seq![p], ctx) == 1 && apply_patches(g, seq![p], ctx)[p.uid].props[p.key]
            == incoming_register(p, ctx),
{
    lemma_law_by_class(p.uid, c, rest);
    let cur = g[p.uid].props[p.key];
    lemma_register_laws(incoming_register(p, ctx), cur);
    assert(seq![p].drop_last() =~= Seq::<PatchView>::empty());
    assert(seq![p].last() == p);
    assert(apply_patches(g, Seq::<PatchView>::empty(), ctx) == g);
    assert(apply_patches(g, seq![p], ctx) == apply_patch(g, p, ctx));
    assert(patches_applied(g, Seq::<PatchView>::empty(), ctx) == 0);
    assert(entity_or_new(g, p.uid) == g[p.uid]);
    if append_only_class(c) {
        assert(law_of(p.uid) == RegisterLaw::FirstWriteWins);
        assert(!patch_wins(g, p, ctx));
    } else {
        assert(law_of(p.uid) == RegisterLaw::LastWriteWins);
        assert(patch_wins(g, p, ctx));
    }
}

/// The LEB128 varint postcard writes for a length: seven bits per byte, low
/// group first, the top bit set on every byte but the last.
pub open spec fn varint(n: nat) -> Seq<u8>
    decreases n,
{
    if n < 128 {
        seq![n as u8]
    } else {
        seq![(n % 128 + 128) as u8] + varint(n / 128)
    }
}

/// The postcard encoding of a string: its UTF-8 length as a varint, then its UTF-8 bytes.
pub open spec fn postcard_str(s: Seq<char>) -> Seq<u8> {
    varint(encode_utf8(s).len()) + encode_utf8(s)
}

#[verifier::external_type_specification]
#[verifier::external_body]
pub struct ExPostcardError(postcard::Error);

/// `postcard::to_allocvec` on a `String`: the length varint followed by the
/// UTF-8 bytes. Serialising a string into a growable vector cannot fail.
#[verifier::external_body]
fn postcard_string(value: &String) -> (r: Result<Vec<u8>, postcard::Error>)
    ensures
        r is Ok,
        r matches Ok(v) ==> v@ == postcard_str(value@),
{
    postcard::to_allocvec(value)
}

/// The canonical bytes of a register's value, compared to break exact ties.
pub fn value_bytes(r: &PropRegister) -> (b: Vec<u8>)
    ensures
        b@ == postcard_str(r.value@),
{
    match postcard_string(&r.value) {
        Ok(v) => v,
        Err(_) => {
            proof { assert(false); }
            Vec::new()
        },
    }
}

/// The order of register metadata: clock, then tier, then writer id.
pub open spec fn meta_lt(a: RegisterView, b: RegisterView) -> bool {
    ||| hlc_lt(a.hlc, b.hlc)
    ||| a.hlc == b.hlc && a.tier < b.tier
    ||| a.hlc == b.hlc && a.tier == b.tier && lex_lt(a.writer@, b.writer@)
}

/// The total order on registers: metadata, then the value's encoded bytes.
pub open spec fn reg_lt(a: RegisterView, b: RegisterView) -> bool {
    ||| meta_lt(a, b)
    ||| a.hlc == b.hlc && a.tier == b.tier && a.writer == b.writer && lex_lt(
        postcard_str(a.value),
        postcard_str(b.value),
    )
}

/// Whether an incoming register replaces the current one under `law`.
pub open spec fn incoming_wins(law: RegisterLaw, incoming: RegisterView, current: RegisterView) -> bool {
    match law {
        RegisterLaw::LastWriteWins => reg_lt(current, incoming),
        RegisterLaw::FirstWriteWins => reg_lt(incoming, current),
    }
}

/// The two register laws: under first-writer-wins a write with a later clock
/// never displaces the current register (append-only classes are immutable by
/// shadowing); under last-writer-wins it always does.
pub proof fn lemma_register_laws(incoming: RegisterView, current: RegisterView)
    requires
        hlc_lt(current.hlc, incoming.hlc),
    ensures
        !incoming_wins(RegisterLaw::FirstWriteWins, incoming, current),
        incoming_wins(RegisterLaw::LastWriteWins, incoming, current),
{
    crate::hlc::lemma_hlc_order(current.hlc, incoming.hlc, current.hlc);
}

/// The register a patch writes under `ctx`.
pub open spec fn incoming_register(p: PatchView, ctx: MergeCtx) -> RegisterView {
    RegisterView { value: p.value, hlc: ctx.hlc, tier: ctx.tier, writer: ctx.writer }
}

/// Whether a patch takes its slot in `g`.
pub open spec fn patch_wins(g: Map<Seq<char>, EntityView>, p: PatchView, ctx: MergeCtx) -> bool {
    let e = entity_or_new(g, p.uid);
    !e.props.contains_key(p.key) || incoming_wins(law_of(p.uid), incoming_register(p, ctx), e.props[p.key])
}

/// The graph after one property patch.
pub open spec fn apply_patch(g: Map<Seq<char>, EntityView>, p: PatchView, ctx: MergeCtx) -> Map<Seq<char>, EntityView> {
    let e = entity_or_new(g, p.uid);
    if patch_wins(g, p, ctx) {
        g.insert(p.uid, EntityView { props: e.props.insert(p.key, incoming_register(p, ctx)), ..e })
    } else {
        g.insert(p.uid, e)
    }
}

/// The graph after adding one edge to its source entity.
pub open spec fn apply_edge(g: Map<Seq<char>, EntityView>, edge: EdgeView) -> Map<Seq<char>, EntityView> {
    let e = entity_or_new(g, edge.from);
    g.insert(edge.from, EntityView { edges: e.edges.insert(edge), ..e })
}

/// The graph after the patches, in order.
pub open spec fn apply_patches(g: Map<Seq<char>, EntityView>, ps: Seq<PatchView>, ctx: MergeCtx) -> Map<Seq<char>, EntityView>
    decreases ps.len(),
{
    if ps.len() == 0 {
        g
    } else {
        apply_patch(apply_patches(g, ps.drop_last(), ctx), ps.last(), ctx)
    }
}

/// How many of the patches took their slot.
pub open spec fn patches_applied(g: Map<Seq<char>, EntityView>, ps: Seq<PatchView>, ctx: MergeCtx) -> nat
    decreases ps.len(),
{
    if ps.len() == 0 {
        0
    } else {
        patches_applied(g, ps.drop_last(), ctx) + if patch_wins(apply_patches(g, ps.drop_last(), ctx), ps.last(), ctx) {
            1nat
        } else {
            0nat
        }
    }
}

/// The graph after the edges, in order.
pub open spec fn apply_edges(g: Map<Seq<char>, EntityView>, es: Seq<EdgeView>) -> Map<Seq<char>, EntityView>
    decreases es.len(),
{
    if es.len() == 0 {
        g
    } else {
        apply_edge(apply_edges(g, es.drop_last()), es.last())
    }
}

/// How many of the edges were new.
pub open spec fn edges_new(g: Map<Seq<char>, EntityView>, es: Seq<EdgeView>) -> nat
    decreases es.len(),
{
    if es.len() == 0 {
        0
    } else {
        edges_new(g, es.drop_last()) + if entity_or_new(apply_edges(g, es.drop_last()), es.last().from).edges.contains(es.last()) {
            0nat
        } else {
            1nat
        }
    }
}

/// The graph after a whole delta: its property patches, then its edges.
pub open spec fn apply_delta(g: Map<Seq<char>, EntityView>, d: DeltaView, ctx: MergeCtx) -> Map<Seq<char>, EntityView> {
    apply_edges(apply_patches(g, d.props, ctx), d.edges)
}

/// Deterministic merge only.
#[derive(Debug)]
pub struct MergeEngine {
    pub policy: MergePolicy,
}

/// Whether `incoming` replaces `current` under `law`.
fn wins_over(law: RegisterLaw, incoming: &PropRegister, current: &PropRegister) -> (r: bool)
    ensures
        r == incoming_wins(law, incoming@, current@),
{
    let (lo, hi) = match law {
        RegisterLaw::LastWriteWins => (current, incoming),
        RegisterLaw::FirstWriteWins => (incoming, current),
    };
    if lo.hlc.lt(&hi.hlc) {
        return true;
    }
    if !lo.hlc.same(&hi.hlc) {
        return false;
    }
    if lo.tier != hi.tier {
        return lo.tier < hi.tier;
    }
    if bytes_lt(&lo.writer, &hi.writer) {
        return true;
    }
    if bytes_lt(&hi.writer, &lo.writer) {
        return false;
    }
    proof {
        crate::order::lemma_lex_total(lo.writer@, hi.writer@);
        assert(lo.writer =~= hi.writer);
    }
    let a = value_bytes(lo);
    let b = value_bytes(hi);
    bytes_lt(a.as_slice(), b.as_slice())
}

impl MergeEngine {
    pub fn new(policy: MergePolicy) -> (r: Self)
        ensures
            r.policy == policy,
    {
        MergeEngine { policy }
    }

    /// Folds `delta` into `state` with the envelope metadata `ctx`: each property
    /// patch competes with the current register under its class's law; each edge
    /// joins its source entity's edge set. Entities are created on first touch.
    pub fn apply(&self, state: &mut GraphState, delta: &GraphDelta, ctx: &MergeCtx) -> (report: MergeReport)
        requires
            old(state).wf(),
        ensures
            final(state).wf(),
            final(state)@ == apply_delta(old(state)@, delta@, *ctx),
            report.props_applied == patches_applied(old(state)@, delta@.props, *ctx),
            report.props_applied + report.props_shadowed == delta.props@.len(),
            report.edges_added == edges_new(apply_patches(old(state)@, delta@.props, *ctx), delta@.edges),
    {
        let ghost g0 = state@;
        let ghost ps = delta@.props;
        let mut applied: usize = 0;
        let mut shadowed: usize = 0;
        let mut i: usize = 0;
        while i < delta.props.len()
            invariant
                state.wf(),
                i <= delta.props@.len(),
                ps == delta@.props,
                state@ == apply_patches(g0, ps.take(i as int), *ctx),
                applied == patches_applied(g0, ps.take(i as int), *ctx),
                applied + shadowed == i,
            decreases delta.props@.len() - i,
        {
            let patch = &delta.props[i];
            let incoming = PropRegister {
                value: patch.value.clone(),
                hlc: ctx.hlc,
                tier: ctx.tier,
                writer: ctx.writer,
            };
            let law = law_for(patch.uid.as_str());
            let ghost before = state@;
            let entity = state.entity_mut(patch.uid.as_str());
            let wins = match entity.get_prop(patch.key.as_str()) {
                None => true,
                Some(existing) => wins_over(law, &incoming, existing),
            };
            if wins {
                entity.put_prop(patch.key.clone(), incoming);
                applied = applied + 1;
            } else {
                shadowed = shadowed + 1;
            }
            proof {
                assert(ps.take(i + 1).drop_last() =~= ps.take(i as int));
                assert(ps.take(i + 1).last() == patch@);
                assert(patch_wins(before, patch@, *ctx) == wins);
            }
            i = i + 1;
        }
        assert(ps.take(delta.props@.len() as int) =~= ps);
        let ghost g1 = state@;
        let ghost es = delta@.edges;
        let mut added: usize = 0;
        let mut j: usize = 0;
        while j < delta.edges.len()
            invariant
                state.wf(),
                j <= delta.edges@.len(),
                es == delta@.edges,
                state@ == apply_edges(g1, es.take(j as int)),
                added == edges_new(g1, es.take(j as int)),
                added <= j,
            decreases delta.edges@.len() - j,
        {
            let edge = &delta.edges[j];
            let ghost before = state@;
            let entity = state.entity_mut(edge.from.as_str());
            if entity.insert_edge(edge.duplicate()) {
                added = added + 1;
            }
            proof {
                assert(es.take(j + 1).drop_last() =~= es.take(j as int));
                assert(es.take(j + 1).last() == edge@);
            }
            j = j + 1;
        }
        assert(es.take(delta.edges@.len() as int) =~= es);
        MergeReport { props_applied: applied, props_shadowed: shadowed, edges_added: added }
    }
}

} // verus!
