//! The replicated knowledge graph: entities keyed by uid, each with
//! last-writer/first-writer property registers and an add-wins edge set.
//! Every collection is kept sorted by key, as the ordered maps and sets that
//! make the state's encoding (and so its root) independent of arrival order.

use vstd::prelude::*;
use crate::hash::{B3, combine_one, blake3_digest, combine_input};
use crate::hlc::{Hlc, hlc_lt, lemma_hlc_order};
use crate::order::{key_lt, str_lt, lemma_key_total, lemma_key_transitive};

verus! {

/// A property value with the metadata that decides which write wins.
#[derive(Debug)]
pub struct PropRegister {
    pub value: String,
    pub hlc: Hlc,
    pub tier: u8,
    pub writer: [u8; 8],
}

#[verifier::ext_equal]
pub struct RegisterView {
    pub value: Seq<char>,
    pub hlc: Hlc,
    pub tier: u8,
    pub writer: [u8; 8],
}

impl View for PropRegister {
    type V = RegisterView;

    open spec fn view(&self) -> RegisterView {
        RegisterView { value: self.value@, hlc: self.hlc, tier: self.tier, writer: self.writer }
    }
}

impl PropRegister {
    pub fn new(value: String, hlc: Hlc, tier: u8, writer: [u8; 8]) -> (r: Self)
        ensures
            r@ == (RegisterView { value: value@, hlc, tier, writer }),
    {
        PropRegister { value, hlc, tier, writer }
    }

    pub fn duplicate(&self) -> (r: Self)
        ensures
            r@ == self@,
    {
        PropRegister { value: self.value.clone(), hlc: self.hlc, tier: self.tier, writer: self.writer }
    }
}

/// A directed, labelled relation between two entities.
#[derive(Debug)]
pub struct Edge {
    pub from: String,
    pub rel: String,
    pub to: String,
    pub hlc: Hlc,
}

pub struct EdgeView {
    pub from: Seq<char>,
    pub rel: Seq<char>,
    pub to: Seq<char>,
    pub hlc: Hlc,
}

impl View for Edge {
    type V = EdgeView;

    open spec fn view(&self) -> EdgeView {
        EdgeView { from: self.from@, rel: self.rel@, to: self.to@, hlc: self.hlc }
    }
}

/// The edge order: by source, relation, target, then clock.
pub open spec fn edge_lt(a: EdgeView, b: EdgeView) -> bool {
    ||| key_lt(a.from, b.from)
    ||| a.from == b.from && key_lt(a.rel, b.rel)
    ||| a.from == b.from && a.rel == b.rel && key_lt(a.to, b.to)
    ||| a.from == b.from && a.rel == b.rel && a.to == b.to && hlc_lt(a.hlc, b.hlc)
}

/// The edge order is a strict total order.
pub proof fn lemma_edge_order(a: EdgeView, b: EdgeView, c: EdgeView)
    ensures
        !edge_lt(a, a),
        !(edge_lt(a, b) && edge_lt(b, a)),
        a == b || edge_lt(a, b) || edge_lt(b, a),
        edge_lt(a, b) && edge_lt(b, c) ==> edge_lt(a, c),
{
    lemma_key_total(a.from, b.from);
    lemma_key_total(a.rel, b.rel);
    lemma_key_total(a.to, b.to);
    lemma_key_total(a.from, c.from);
    lemma_key_total(b.from, c.from);
    lemma_key_total(a.rel, c.rel);
    lemma_key_total(b.rel, c.rel);
    lemma_key_total(a.to, c.to);
    lemma_key_total(b.to, c.to);
    lemma_hlc_order(a.hlc, b.hlc, c.hlc);
    if key_lt(a.from, b.from) && key_lt(b.from, c.from) {
        lemma_key_transitive(a.from, b.from, c.from);
    }
    if key_lt(a.rel, b.rel) && key_lt(b.rel, c.rel) {
        lemma_key_transitive(a.rel, b.rel, c.rel);
    }
    if key_lt(a.to, b.to) && key_lt(b.to, c.to) {
        lemma_key_transitive(a.to, b.to, c.to);
    }
}

impl Edge {
    pub fn duplicate(&self) -> (r: Self)
        ensures
            r@ == self@,
    {
        Edge { from: self.from.clone(), rel: self.rel.clone(), to: self.to.clone(), hlc: self.hlc }
    }

    /// Whether `self` comes strictly before `other` in edge order.
    pub fn lt(&self, other: &Edge) -> (r: bool)
        ensures
            r == edge_lt(self@, other@),
    {
        proof {
            lemma_key_total(self.from@, other.from@);
            lemma_key_total(self.rel@, other.rel@);
            lemma_key_total(self.to@, other.to@);
        }
        if !(self.from == other.from) {
            str_lt(self.from.as_str(), other.from.as_str())
        } else if !(self.rel == other.rel) {
            str_lt(self.rel.as_str(), other.rel.as_str())
        } else if !(self.to == other.to) {
            str_lt(self.to.as_str(), other.to.as_str())
        } else {
            self.hlc.lt(&other.hlc)
        }
    }

    /// Whether the two edges are the same.
    pub fn same(&self, other: &Edge) -> (r: bool)
        ensures
            r == (self@ == other@),
    {
        self.from == other.from && self.rel == other.rel && self.to == other.to && self.hlc.same(
            &other.hlc,
        )
    }
}

/// One property of an entity: its key and its register.
#[derive(Debug)]
pub struct PropEntry {
    pub key: String,
    pub register: PropRegister,
}

/// A node of the graph.
#[derive(Debug)]
pub struct Entity {
    pub uid: String,
    /// Sorted by key, keys distinct.
    pub props: Vec<PropEntry>,
    /// Sorted in edge order, edges distinct.
    pub edges: Vec<Edge>,
}

#[verifier::ext_equal]
pub struct EntityView {
    pub uid: Seq<char>,
    pub props: Map<Seq<char>, RegisterView>,
    pub edges: Set<EdgeView>,
}

/// The properties held in a key-sorted sequence, as a map.
pub open spec fn props_map(s: Seq<PropEntry>) -> Map<Seq<char>, RegisterView> {
    Map::new(
        |k: Seq<char>| exists|i: int| 0 <= i < s.len() && s[i].key@ == k,
        |k: Seq<char>| prop_lookup(s, k),
    )
}

/// The register of the last entry in `s` with key `k`.
pub open spec fn prop_lookup(s: Seq<PropEntry>, k: Seq<char>) -> RegisterView
    decreases s.len(),
{
    if s.len() == 0 {
        arbitrary()
    } else if s.last().key@ == k {
        s.last().register@
    } else {
        prop_lookup(s.drop_last(), k)
    }
}

/// The edges held in a sequence, as a set.
pub open spec fn edge_set(s: Seq<Edge>) -> Set<EdgeView> {
    Set::new(|e: EdgeView| exists|i: int| 0 <= i < s.len() && s[i]@ == e)
}

pub open spec fn props_sorted(s: Seq<PropEntry>) -> bool {
    forall|i: int, j: int| 0 <= i < j < s.len() ==> key_lt(#[trigger] s[i].key@, #[trigger] s[j].key@)
}

pub open spec fn edges_sorted(s: Seq<Edge>) -> bool {
    forall|i: int, j: int| 0 <= i < j < s.len() ==> edge_lt(#[trigger] s[i]@, #[trigger] s[j]@)
}

impl View for Entity {
    type V = EntityView;

    open spec fn view(&self) -> EntityView {
        EntityView { uid: self.uid@, props: props_map(self.props@), edges: edge_set(self.edges@) }
    }
}

/// In a key-sorted sequence, the entry at `i` is the one the map gives for its key.
pub proof fn lemma_props_map_at(s: Seq<PropEntry>, n: int)
    requires
        props_sorted(s),
        0 <= n < s.len(),
    ensures
        props_map(s).contains_key(s[n].key@),
        props_map(s)[s[n].key@] == s[n].register@,
    decreases s.len(),
{
    let k = s[n].key@;
    assert(exists|i: int| 0 <= i < s.len() && s[i].key@ == k);
    assert(props_map(s).contains_key(k));
    assert(props_map(s)[k] == prop_lookup(s, k));
    if n < s.len() - 1 {
        lemma_props_distinct(s, n, s.len() - 1);
        let t = s.drop_last();
        assert forall|a: int, b: int| 0 <= a < b < t.len() implies key_lt(
            #[trigger] t[a].key@,
            #[trigger] t[b].key@,
        ) by {
            assert(key_lt(s[a].key@, s[b].key@));
        }
        lemma_props_map_at(t, n);
        assert(props_map(t)[k] == prop_lookup(t, k));
    }
}

impl Entity {
    /// An entity with no properties and no edges.
    pub fn new(uid: String) -> (r: Self)
        ensures
            r.uid@ == uid@,
            r.wf(),
            r@.props == Map::<Seq<char>, RegisterView>::empty(),
            r@.edges == Set::<EdgeView>::empty(),
    {
        let r = Entity { uid, props: Vec::new(), edges: Vec::new() };
        assert(props_map(r.props@) =~= Map::<Seq<char>, RegisterView>::empty());
        assert(edge_set(r.edges@) =~= Set::<EdgeView>::empty());
        r
    }

    pub open spec fn wf(&self) -> bool {
        props_sorted(self.props@) && edges_sorted(self.edges@)
    }

    /// Where `key` stands or would stand among the sorted properties.
    fn prop_slot(&self, key: &str) -> (r: (usize, bool))
        requires
            self.wf(),
        ensures
            r.0 <= self.props@.len(),
            forall|i: int| 0 <= i < r.0 ==> key_lt(#[trigger] self.props@[i].key@, key@),
            r.1 ==> r.0 < self.props@.len() && self.props@[r.0 as int].key@ == key@,
            !r.1 ==> r.0 == self.props@.len() || key_lt(key@, self.props@[r.0 as int].key@),
    {
        let mut i: usize = 0;
        while i < self.props.len()
            invariant
                i <= self.props@.len(),
                forall|j: int| 0 <= j < i ==> key_lt(#[trigger] self.props@[j].key@, key@),
            decreases self.props@.len() - i,
        {
            let k = self.props[i].key.as_str();
            if !str_lt(k, key) {
                proof { lemma_key_total(k@, key@); }
                return (i, !str_lt(key, k));
            }
            i = i + 1;
        }
        (i, false)
    }

    /// The register of property `key`, if the entity has one.
    pub fn get_prop(&self, key: &str) -> (r: Option<&PropRegister>)
        requires
            self.wf(),
        ensures
            r is Some <==> self@.props.contains_key(key@),
            r matches Some(reg) ==> reg@ == self@.props[key@],
    {
        let (i, found) = self.prop_slot(key);
        if found {
            proof { lemma_props_map_at(self.props@, i as int); }
            Some(&self.props[i].register)
        } else {
            proof {
                if self@.props.contains_key(key@) {
                    let j = choose|j: int| 0 <= j < self.props@.len() && self.props@[j].key@ == key@;
                    lemma_key_total(key@, key@);
                    if j >= i {
                        if j > i {
                            assert(key_lt(self.props@[i as int].key@, self.props@[j].key@));
                            lemma_key_transitive(key@, self.props@[i as int].key@, key@);
                        }
                    }
                }
            }
            None
        }
    }

    /// Sets property `key` to `register`, keeping the properties sorted.
    pub fn put_prop(&mut self, key: String, register: PropRegister)
        requires
            old(self).wf(),
        ensures
            final(self).wf(),
            final(self).uid == old(self).uid,
            final(self).edges@ == old(self).edges@,
            final(self)@.props == old(self)@.props.insert(key@, register@),
    {
        let ghost old_props = self.props@;
        let (i, found) = self.prop_slot(key.as_str());
        let entry = PropEntry { key, register };
        if found {
            proof { lemma_props_set(old_props, i as int, entry); }
            self.props.set(i, entry);
        } else {
            proof { lemma_props_insert(old_props, i as int, entry); }
            self.props.insert(i, entry);
        }
    }

    /// Where `edge` stands or would stand among the sorted edges.
    fn edge_slot(&self, edge: &Edge) -> (r: (usize, bool))
        requires
            self.wf(),
        ensures
            r.0 <= self.edges@.len(),
            forall|i: int| 0 <= i < r.0 ==> edge_lt(#[trigger] self.edges@[i]@, edge@),
            r.1 ==> r.0 < self.edges@.len() && self.edges@[r.0 as int]@ == edge@,
            !r.1 ==> r.0 == self.edges@.len() || edge_lt(edge@, self.edges@[r.0 as int]@),
    {
        let mut i: usize = 0;
        while i < self.edges.len()
            invariant
                i <= self.edges@.len(),
                forall|j: int| 0 <= j < i ==> edge_lt(#[trigger] self.edges@[j]@, edge@),
            decreases self.edges@.len() - i,
        {
            let e = &self.edges[i];
            if !e.lt(edge) {
                proof { lemma_edge_order(e@, edge@, edge@); }
                return (i, e.same(edge));
            }
            i = i + 1;
        }
        (i, false)
    }

    /// Whether the entity holds `edge`.
    pub fn has_edge(&self, edge: &Edge) -> (r: bool)
        requires
            self.wf(),
        ensures
            r == self@.edges.contains(edge@),
    {
        let (i, found) = self.edge_slot(edge);
        proof {
            if !found && self@.edges.contains(edge@) {
                let j = choose|j: int| 0 <= j < self.edges@.len() && self.edges@[j]@ == edge@;
                lemma_edge_order(edge@, edge@, edge@);
                if j > i {
                    assert(edge_lt(self.edges@[i as int]@, self.edges@[j]@));
                    lemma_edge_order(edge@, self.edges@[i as int]@, edge@);
                }
            }
        }
        found
    }

    /// Adds `edge` unless it is already present; reports whether it was added.
    pub fn insert_edge(&mut self, edge: Edge) -> (added: bool)
        requires
            old(self).wf(),
        ensures
            final(self).wf(),
            final(self).uid == old(self).uid,
            final(self).props@ == old(self).props@,
            final(self)@.edges == old(self)@.edges.insert(edge@),
            added == !old(self)@.edges.contains(edge@),
    {
        let present = self.has_edge(&edge);
        if present {
            proof { assert(self@.edges.insert(edge@) =~= self@.edges); }
            return false;
        }
        let (i, found) = self.edge_slot(&edge);
        proof { lemma_edges_insert(self.edges@, i as int, edge); }
        self.edges.insert(i, edge);
        true
    }
}

/// Inserting an edge at its sorted position adds it to the set.
pub proof fn lemma_edges_insert(s: Seq<Edge>, i: int, e: Edge)
    requires
        edges_sorted(s),
        0 <= i <= s.len(),
        forall|j: int| 0 <= j < i ==> edge_lt(#[trigger] s[j]@, e@),
        i == s.len() || edge_lt(e@, s[i]@),
    ensures
        edges_sorted(s.insert(i, e)),
        edge_set(s.insert(i, e)) == edge_set(s).insert(e@),
{
    let t = s.insert(i, e);
    assert forall|a: int, b: int| 0 <= a < b < t.len() implies edge_lt(
        #[trigger] t[a]@,
        #[trigger] t[b]@,
    ) by {
        if b == i {
            assert(t[a] == s[a]);
        } else if a == i {
            assert(t[b] == s[b - 1]);
            if b - 1 > i {
                assert(edge_lt(s[i]@, s[b - 1]@));
                lemma_edge_order(e@, s[i]@, s[b - 1]@);
            }
        } else if a < i && b > i {
            assert(t[b] == s[b - 1]);
            assert(t[a] == s[a]);
            if b - 1 > i {
                assert(edge_lt(s[i]@, s[b - 1]@));
                lemma_edge_order(e@, s[i]@, s[b - 1]@);
            }
            lemma_edge_order(s[a]@, e@, s[b - 1]@);
        } else if a > i {
            assert(edge_lt(s[a - 1]@, s[b - 1]@));
        } else {
            assert(edge_lt(s[a]@, s[b]@));
        }
    }
    assert forall|x: EdgeView| #[trigger] edge_set(t).contains(x) == edge_set(s).insert(e@).contains(x) by {
        if edge_set(s).contains(x) {
            let j = choose|j: int| 0 <= j < s.len() && s[j]@ == x;
            if j < i {
                assert(t[j]@ == x);
            } else {
                assert(t[j + 1]@ == x);
            }
        }
        if x == e@ {
            assert(t[i]@ == x);
        }
        if edge_set(t).contains(x) {
            let j = choose|j: int| 0 <= j < t.len() && t[j]@ == x;
            if j < i {
                assert(s[j]@ == x);
            } else if j > i {
                assert(s[j - 1]@ == x);
            }
        }
    }
    assert(edge_set(t) =~= edge_set(s).insert(e@));
}

/// Distinct positions of a key-sorted sequence hold distinct keys.
pub proof fn lemma_props_distinct(s: Seq<PropEntry>, i: int, j: int)
    requires
        props_sorted(s),
        0 <= i < s.len(),
        0 <= j < s.len(),
        i != j,
    ensures
        s[i].key@ != s[j].key@,
{
    lemma_key_total(s[i].key@, s[j].key@);
    if i < j {
        assert(key_lt(s[i].key@, s[j].key@));
    } else {
        assert(key_lt(s[j].key@, s[i].key@));
    }
}

/// Replacing the entry that holds a key updates that key in the map.
pub proof fn lemma_props_set(s: Seq<PropEntry>, i: int, e: PropEntry)
    requires
        props_sorted(s),
        0 <= i < s.len(),
        s[i].key@ == e.key@,
    ensures
        props_sorted(s.update(i, e)),
        props_map(s.update(i, e)) == props_map(s).insert(e.key@, e.register@),
{
    let t = s.update(i, e);
    assert forall|a: int, b: int| 0 <= a < b < t.len() implies key_lt(
        #[trigger] t[a].key@,
        #[trigger] t[b].key@,
    ) by {
        assert(key_lt(s[a].key@, s[b].key@));
    }
    let m = props_map(s).insert(e.key@, e.register@);
    assert forall|kk: Seq<char>| #[trigger] props_map(t).contains_key(kk) == m.contains_key(kk) by {
        if m.contains_key(kk) {
            if kk == e.key@ {
                assert(t[i].key@ == kk);
            } else {
                let j = choose|j: int| 0 <= j < s.len() && s[j].key@ == kk;
                assert(t[j].key@ == kk);
            }
        }
        if props_map(t).contains_key(kk) {
            let j = choose|j: int| 0 <= j < t.len() && t[j].key@ == kk;
            if j != i {
                assert(s[j].key@ == kk);
            }
        }
    }
    assert forall|kk: Seq<char>| #[trigger] props_map(t).contains_key(kk) implies props_map(t)[kk]
        == m[kk] by {
        let j = choose|j: int| 0 <= j < t.len() && t[j].key@ == kk;
        lemma_props_map_at(t, j);
        if j != i {
            lemma_props_map_at(s, j);
            lemma_props_distinct(t, i, j);
        }
    }
    assert(props_map(t) =~= m);
}

/// Inserting an entry at its sorted position adds its key to the map.
pub proof fn lemma_props_insert(s: Seq<PropEntry>, i: int, e: PropEntry)
    requires
        props_sorted(s),
        0 <= i <= s.len(),
        forall|j: int| 0 <= j < i ==> key_lt(#[trigger] s[j].key@, e.key@),
        i == s.len() || key_lt(e.key@, s[i].key@),
    ensures
        props_sorted(s.insert(i, e)),
        props_map(s.insert(i, e)) == props_map(s).insert(e.key@, e.register@),
{
    let t = s.insert(i, e);
    let k = e.key@;
    assert forall|a: int, b: int| 0 <= a < b < t.len() implies key_lt(
        #[trigger] t[a].key@,
        #[trigger] t[b].key@,
    ) by {
        if b == i {
            assert(t[a] == s[a]);
        } else if a == i {
            assert(t[b] == s[b - 1]);
            if b - 1 > i {
                assert(key_lt(s[i].key@, s[b - 1].key@));
                lemma_key_transitive(k, s[i].key@, s[b - 1].key@);
            }
        } else if a < i && b > i {
            assert(t[b] == s[b - 1]);
            assert(t[a] == s[a]);
            if b - 1 > i {
                assert(key_lt(s[i].key@, s[b - 1].key@));
                lemma_key_transitive(k, s[i].key@, s[b - 1].key@);
            }
            lemma_key_transitive(s[a].key@, k, s[b - 1].key@);
        } else if a > i {
            assert(key_lt(s[a - 1].key@, s[b - 1].key@));
        } else {
            assert(key_lt(s[a].key@, s[b].key@));
        }
    }
    let m = props_map(s).insert(k, e.register@);
    assert forall|kk: Seq<char>| #[trigger] props_map(t).contains_key(kk) == m.contains_key(kk) by {
        if m.contains_key(kk) {
            if kk == k {
                assert(t[i].key@ == kk);
            } else {
                let j = choose|j: int| 0 <= j < s.len() && s[j].key@ == kk;
                if j < i {
                    assert(t[j].key@ == kk);
                } else {
                    assert(t[j + 1].key@ == kk);
                }
            }
        }
        if props_map(t).contains_key(kk) {
            let j = choose|j: int| 0 <= j < t.len() && t[j].key@ == kk;
            if j < i {
                assert(s[j].key@ == kk);
            } else if j > i {
                assert(s[j - 1].key@ == kk);
            }
        }
    }
    assert forall|kk: Seq<char>| #[trigger] props_map(t).contains_key(kk) implies props_map(t)[kk]
        == m[kk] by {
        let j = choose|j: int| 0 <= j < t.len() && t[j].key@ == kk;
        lemma_props_map_at(t, j);
        if j < i {
            lemma_props_map_at(s, j);
            lemma_props_distinct(t, i, j);
        } else if j > i {
            lemma_props_map_at(s, j - 1);
            lemma_props_distinct(t, i, j);
        }
    }
    assert(props_map(t) =~= m);
}


/// A property write as a delta carries it.
#[derive(Debug)]
pub struct PropPatch {
    pub uid: String,
    pub key: String,
    pub value: String,
}

pub struct PatchView {
    pub uid: Seq<char>,
    pub key: Seq<char>,
    pub value: Seq<char>,
}

impl View for PropPatch {
    type V = PatchView;

    open spec fn view(&self) -> PatchView {
        PatchView { uid: self.uid@, key: self.key@, value: self.value@ }
    }
}

/// The writes one packet carries.
#[derive(Debug)]
pub struct GraphDelta {
    pub props: Vec<PropPatch>,
    pub edges: Vec<Edge>,
}

pub struct DeltaView {
    pub props: Seq<PatchView>,
    pub edges: Seq<EdgeView>,
}

impl View for GraphDelta {
    type V = DeltaView;

    open spec fn view(&self) -> DeltaView {
        DeltaView {
            props: self.props@.map_values(|p: PropPatch| p@),
            edges: self.edges@.map_values(|e: Edge| e@),
        }
    }
}

/// The state every replica converges to: entities sorted by uid.
#[derive(Debug)]
pub struct GraphState {
    pub entities: Vec<Entity>,
}

pub open spec fn entities_sorted(s: Seq<Entity>) -> bool {
    forall|i: int, j: int| 0 <= i < j < s.len() ==> key_lt(#[trigger] s[i].uid@, #[trigger] s[j].uid@)
}

/// The entities held in a uid-sorted sequence, as a map from uid.
pub open spec fn entity_map(s: Seq<Entity>) -> Map<Seq<char>, EntityView> {
    Map::new(
        |k: Seq<char>| exists|i: int| 0 <= i < s.len() && s[i].uid@ == k,
        |k: Seq<char>| entity_lookup(s, k),
    )
}

/// The view of the last entity in `s` with uid `k`.
pub open spec fn entity_lookup(s: Seq<Entity>, k: Seq<char>) -> EntityView
    decreases s.len(),
{
    if s.len() == 0 {
        arbitrary()
    } else if s.last().uid@ == k {
        s.last()@
    } else {
        entity_lookup(s.drop_last(), k)
    }
}

/// The entity a write to `uid` lands in: the existing one, or a fresh empty one.
pub open spec fn entity_or_new(m: Map<Seq<char>, EntityView>, uid: Seq<char>) -> EntityView {
    if m.contains_key(uid) {
        m[uid]
    } else {
        EntityView { uid, props: Map::empty(), edges: Set::empty() }
    }
}

impl View for GraphState {
    type V = Map<Seq<char>, EntityView>;

    open spec fn view(&self) -> Map<Seq<char>, EntityView> {
        entity_map(self.entities@)
    }
}

pub proof fn lemma_entities_distinct(s: Seq<Entity>, i: int, j: int)
    requires
        entities_sorted(s),
        0 <= i < s.len(),
        0 <= j < s.len(),
        i != j,
    ensures
        s[i].uid@ != s[j].uid@,
{
    lemma_key_total(s[i].uid@, s[j].uid@);
    if i < j {
        assert(key_lt(s[i].uid@, s[j].uid@));
    } else {
        assert(key_lt(s[j].uid@, s[i].uid@));
    }
}

pub proof fn lemma_entity_map_at(s: Seq<Entity>, n: int)
    requires
        entities_sorted(s),
        0 <= n < s.len(),
    ensures
        entity_map(s).contains_key(s[n].uid@),
        entity_map(s)[s[n].uid@] == s[n]@,
    decreases s.len(),
{
    let k = s[n].uid@;
    assert(exists|i: int| 0 <= i < s.len() && s[i].uid@ == k);
    assert(entity_map(s).contains_key(k));
    assert(entity_map(s)[k] == entity_lookup(s, k));
    if n < s.len() - 1 {
        lemma_entities_distinct(s, n, s.len() - 1);
        let t = s.drop_last();
        assert forall|a: int, b: int| 0 <= a < b < t.len() implies key_lt(
            #[trigger] t[a].uid@,
            #[trigger] t[b].uid@,
        ) by {
            assert(key_lt(s[a].uid@, s[b].uid@));
        }
        lemma_entity_map_at(t, n);
        assert(entity_map(t)[k] == entity_lookup(t, k));
    }
}

/// Replacing the entity that has a uid updates that uid in the map.
pub proof fn lemma_entities_set(s: Seq<Entity>, i: int, e: Entity)
    requires
        entities_sorted(s),
        0 <= i < s.len(),
        s[i].uid@ == e.uid@,
    ensures
        entities_sorted(s.update(i, e)),
        entity_map(s.update(i, e)) == entity_map(s).insert(e.uid@, e@),
{
    let t = s.update(i, e);
    assert forall|a: int, b: int| 0 <= a < b < t.len() implies key_lt(
        #[trigger] t[a].uid@,
        #[trigger] t[b].uid@,
    ) by {
        assert(key_lt(s[a].uid@, s[b].uid@));
    }
    let m = entity_map(s).insert(e.uid@, e@);
    assert forall|kk: Seq<char>| #[trigger] entity_map(t).contains_key(kk) == m.contains_key(kk) by {
        if m.contains_key(kk) {
            if kk == e.uid@ {
                assert(t[i].uid@ == kk);
            } else {
                let j = choose|j: int| 0 <= j < s.len() && s[j].uid@ == kk;
                assert(t[j].uid@ == kk);
            }
        }
        if entity_map(t).contains_key(kk) {
            let j = choose|j: int| 0 <= j < t.len() && t[j].uid@ == kk;
            if j != i {
                assert(s[j].uid@ == kk);
            }
        }
    }
    assert forall|kk: Seq<char>| #[trigger] entity_map(t).contains_key(kk) implies entity_map(t)[kk]
        == m[kk] by {
        let j = choose|j: int| 0 <= j < t.len() && t[j].uid@ == kk;
        lemma_entity_map_at(t, j);
        if j != i {
            lemma_entity_map_at(s, j);
            lemma_entities_distinct(t, i, j);
        }
    }
    assert(entity_map(t) =~= m);
}

/// Inserting an entity at its sorted position adds its uid to the map.
pub proof fn lemma_entities_insert(s: Seq<Entity>, i: int, e: Entity)
    requires
        entities_sorted(s),
        0 <= i <= s.len(),
        forall|j: int| 0 <= j < i ==> key_lt(#[trigger] s[j].uid@, e.uid@),
        i == s.len() || key_lt(e.uid@, s[i].uid@),
    ensures
        entities_sorted(s.insert(i, e)),
        entity_map(s.insert(i, e)) == entity_map(s).insert(e.uid@, e@),
{
    let t = s.insert(i, e);
    let k = e.uid@;
    assert forall|a: int, b: int| 0 <= a < b < t.len() implies key_lt(
        #[trigger] t[a].uid@,
        #[trigger] t[b].uid@,
    ) by {
        if b == i {
            assert(t[a] == s[a]);
        } else if a == i {
            assert(t[b] == s[b - 1]);
            if b - 1 > i {
                assert(key_lt(s[i].uid@, s[b - 1].uid@));
                lemma_key_transitive(k, s[i].uid@, s[b - 1].uid@);
            }
        } else if a < i && b > i {
            assert(t[b] == s[b - 1]);
            assert(t[a] == s[a]);
            if b - 1 > i {
                assert(key_lt(s[i].uid@, s[b - 1].uid@));
                lemma_key_transitive(k, s[i].uid@, s[b - 1].uid@);
            }
            lemma_key_transitive(s[a].uid@, k, s[b - 1].uid@);
        } else if a > i {
            assert(key_lt(s[a - 1].uid@, s[b - 1].uid@));
        } else {
            assert(key_lt(s[a].uid@, s[b].uid@));
        }
    }
    let m = entity_map(s).insert(k, e@);
    assert forall|kk: Seq<char>| #[trigger] entity_map(t).contains_key(kk) == m.contains_key(kk) by {
        if m.contains_key(kk) {
            if kk == k {
                assert(t[i].uid@ == kk);
            } else {
                let j = choose|j: int| 0 <= j < s.len() && s[j].uid@ == kk;
                if j < i {
                    assert(t[j].uid@ == kk);
                } else {
                    assert(t[j + 1].uid@ == kk);
                }
            }
        }
        if entity_map(t).contains_key(kk) {
            let j = choose|j: int| 0 <= j < t.len() && t[j].uid@ == kk;
            if j < i {
                assert(s[j].uid@ == kk);
            } else if j > i {
                assert(s[j - 1].uid@ == kk);
            }
        }
    }
    assert forall|kk: Seq<char>| #[trigger] entity_map(t).contains_key(kk) implies entity_map(t)[kk]
        == m[kk] by {
        let j = choose|j: int| 0 <= j < t.len() && t[j].uid@ == kk;
        lemma_entity_map_at(t, j);
        if j < i {
            lemma_entity_map_at(s, j);
            lemma_entities_distinct(t, i, j);
        } else if j > i {
            lemma_entity_map_at(s, j - 1);
            lemma_entities_distinct(t, i, j);
        }
    }
    assert(entity_map(t) =~= m);
}

/// The tag under which a graph's commitment is computed.
pub const GRAPH_ROOT_TAG: &'static str = "agentzk.graph.root.v0";

impl GraphState {
    /// The state root: the tagged, length-framed digest of the encoded entity map.
    pub fn root_of_encoding(encoded_entities: &[u8]) -> (r: B3)
        ensures
            r@ == blake3_digest(combine_input(GRAPH_ROOT_TAG@, seq![encoded_entities@])),
    {
        combine_one(GRAPH_ROOT_TAG, encoded_entities)
    }

    /// The empty graph.
    pub fn new() -> (r: Self)
        ensures
            r.wf(),
            r@ == Map::<Seq<char>, EntityView>::empty(),
    {
        let r = GraphState { entities: Vec::new() };
        assert(entity_map(r.entities@) =~= Map::<Seq<char>, EntityView>::empty());
        r
    }

    pub open spec fn wf(&self) -> bool {
        &&& entities_sorted(self.entities@)
        &&& forall|i: int| 0 <= i < self.entities@.len() ==> (#[trigger] self.entities@[i]).wf()
    }

    fn entity_slot(&self, uid: &str) -> (r: (usize, bool))
        requires
            self.wf(),
        ensures
            r.0 <= self.entities@.len(),
            forall|i: int| 0 <= i < r.0 ==> key_lt(#[trigger] self.entities@[i].uid@, uid@),
            r.1 ==> r.0 < self.entities@.len() && self.entities@[r.0 as int].uid@ == uid@,
            !r.1 ==> r.0 == self.entities@.len() || key_lt(uid@, self.entities@[r.0 as int].uid@),
    {
        let mut i: usize = 0;
        while i < self.entities.len()
            invariant
                i <= self.entities@.len(),
                forall|j: int| 0 <= j < i ==> key_lt(#[trigger] self.entities@[j].uid@, uid@),
            decreases self.entities@.len() - i,
        {
            let k = self.entities[i].uid.as_str();
            if !str_lt(k, uid) {
                proof { lemma_key_total(k@, uid@); }
                return (i, !str_lt(uid, k));
            }
            i = i + 1;
        }
        (i, false)
    }

    /// The entity with `uid`, if the graph has one.
    pub fn get_entity(&self, uid: &str) -> (r: Option<&Entity>)
        requires
            self.wf(),
        ensures
            r is Some <==> self@.contains_key(uid@),
            r matches Some(e) ==> e@ == self@[uid@] && e.wf(),
    {
        let (i, found) = self.entity_slot(uid);
        if found {
            proof { lemma_entity_map_at(self.entities@, i as int); }
            Some(&self.entities[i])
        } else {
            proof {
                if self@.contains_key(uid@) {
                    let j = choose|j: int| 0 <= j < self.entities@.len() && self.entities@[j].uid@ == uid@;
                    lemma_key_total(uid@, uid@);
                    if j > i {
                        assert(key_lt(self.entities@[i as int].uid@, self.entities@[j].uid@));
                        lemma_key_transitive(uid@, self.entities@[i as int].uid@, uid@);
                    }
                }
            }
            None
        }
    }

    /// The position of the entity with `uid`, adding an empty one if there is none.
    pub fn entity_index(&mut self, uid: &str) -> (i: usize)
        requires
            old(self).wf(),
        ensures
            final(self).wf(),
            i < final(self).entities@.len(),
            final(self).entities@[i as int].uid@ == uid@,
            final(self).entities@[i as int]@ == entity_or_new(old(self)@, uid@),
            final(self)@ == old(self)@.insert(uid@, entity_or_new(old(self)@, uid@)),
    {
        let (i, found) = self.entity_slot(uid);
        if found {
            proof {
                lemma_entity_map_at(self.entities@, i as int);
                assert(self@.insert(uid@, entity_or_new(self@, uid@)) =~= self@);
            }
        } else {
            let e = Entity::new(uid.to_owned());
            proof {
                if self@.contains_key(uid@) {
                    let j = choose|j: int| 0 <= j < self.entities@.len() && self.entities@[j].uid@ == uid@;
                    lemma_key_total(uid@, uid@);
                    if j > i {
                        assert(key_lt(self.entities@[i as int].uid@, self.entities@[j].uid@));
                        lemma_key_transitive(uid@, self.entities@[i as int].uid@, uid@);
                    }
                }
                assert(e@ =~= entity_or_new(self@, uid@));
                lemma_entities_insert(self.entities@, i as int, e);
            }
            self.entities.insert(i, e);
        }
        i
    }

    /// The entity with `uid` for writing, created empty if absent.
    pub fn entity_mut(&mut self, uid: &str) -> (r: &mut Entity)
        requires
            old(self).wf(),
        ensures
            (*r).wf(),
            (*r).uid@ == uid@,
            (*r)@ == entity_or_new(old(self)@, uid@),
            final(r).uid@ == uid@ && final(r).wf() ==> final(self).wf() && final(self)@ == old(
                self,
            )@.insert(uid@, final(r)@),
    {
        let i = self.entity_index(uid);
        let ghost mid = self.entities@;
        proof {
            assert(self.entities@[i as int].wf());
            assert forall|e: Entity| e.uid@ == uid@ && e.wf() implies {
                &&& entities_sorted(#[trigger] mid.update(i as int, e))
                &&& entity_map(mid.update(i as int, e)) == entity_map(mid).insert(uid@, e@)
            } by {
                lemma_entities_set(mid, i as int, e);
            }
        }
        &mut self.entities[i]
    }

    /// Sets property `key` of entity `uid` (created empty if absent).
    pub fn put_prop(&mut self, uid: &str, key: String, register: PropRegister)
        requires
            old(self).wf(),
        ensures
            final(self).wf(),
            final(self)@ == old(self)@.insert(
                uid@,
                EntityView {
                    props: entity_or_new(old(self)@, uid@).props.insert(key@, register@),
                    ..entity_or_new(old(self)@, uid@)
                },
            ),
    {
        let i = self.entity_index(uid);
        let ghost mid = self.entities@;
        let mut e = self.entities.remove(i);
        e.put_prop(key, register);
        proof {
            lemma_entities_set(mid, i as int, e);
            assert(mid.update(i as int, e) =~= mid.remove(i as int).insert(i as int, e));
        }
        self.entities.insert(i, e);
        proof {
            assert(self@ =~= old(self)@.insert(uid@, e@));
        }
    }
}

} // verus!
