//! Hybrid logical clock with a node-id tiebreak, ordered by
//! (physical time, logical counter, node id).

use vstd::prelude::*;
use crate::order::{lex_lt, bytes_lt, lemma_lex_total, lemma_lex_asymmetric, lemma_lex_irreflexive,
    lemma_lex_transitive};

verus! {

broadcast use vstd::array::group_array_axioms;

/// A timestamp that orders writes deterministically across replicas.
/// Field order makes the derived `Ord` the clock order `hlc_lt` states.
#[derive(Clone, Copy, Debug, PartialEq, Eq, Hash, PartialOrd, Ord)]
pub struct Hlc {
    pub physical_ms: u64,
    pub logical: u32,
    pub node_id: [u8; 8],
}

/// The clock order: physical time, then logical counter, then node id byte-wise.
pub open spec fn hlc_lt(a: Hlc, b: Hlc) -> bool {
    ||| a.physical_ms < b.physical_ms
    ||| a.physical_ms == b.physical_ms && a.logical < b.logical
    ||| a.physical_ms == b.physical_ms && a.logical == b.logical && lex_lt(a.node_id@, b.node_id@)
}

/// The clock order is a strict total order.
pub proof fn lemma_hlc_order(a: Hlc, b: Hlc, c: Hlc)
    ensures
        !hlc_lt(a, a),
        !(hlc_lt(a, b) && hlc_lt(b, a)),
        a == b || hlc_lt(a, b) || hlc_lt(b, a),
        hlc_lt(a, b) && hlc_lt(b, c) ==> hlc_lt(a, c),
{
    lemma_lex_irreflexive(a.node_id@);
    lemma_lex_asymmetric(a.node_id@, b.node_id@);
    lemma_lex_total(a.node_id@, b.node_id@);
    if a.node_id@ =~= b.node_id@ {
        assert(a.node_id == b.node_id);
    }
    if hlc_lt(a, b) && hlc_lt(b, c) && a.physical_ms == c.physical_ms && a.logical == c.logical {
        lemma_lex_transitive(a.node_id@, b.node_id@, c.node_id@);
    }
}

impl Hlc {
    pub fn new(physical_ms: u64, logical: u32, node_id: [u8; 8]) -> (r: Self)
        ensures
            r.physical_ms == physical_ms,
            r.logical == logical,
            r.node_id == node_id,
    {
        Hlc { physical_ms, logical, node_id }
    }

    /// The next local timestamp at wall time `now_ms`: the wall time with a
    /// fresh counter when it is ahead, otherwise the same time with the counter bumped.
    pub fn tick(&self, now_ms: u64) -> (r: Self)
        requires
            now_ms > self.physical_ms || self.logical < u32::MAX,
        ensures
            now_ms > self.physical_ms ==> r == Hlc::new_spec(now_ms, 0, self.node_id),
            now_ms <= self.physical_ms ==> r == Hlc::new_spec(self.physical_ms, (self.logical + 1) as u32, self.node_id),
            hlc_lt(*self, r),
            r.physical_ms >= now_ms,
    {
        if now_ms > self.physical_ms {
            Self::new(now_ms, 0, self.node_id)
        } else {
            Self::new(self.physical_ms, self.logical + 1, self.node_id)
        }
    }

    pub open spec fn new_spec(physical_ms: u64, logical: u32, node_id: [u8; 8]) -> Hlc {
        Hlc { physical_ms, logical, node_id }
    }

    /// Whether `self` comes strictly before `other` in clock order.
    pub fn lt(&self, other: &Hlc) -> (r: bool)
        ensures
            r == hlc_lt(*self, *other),
    {
        if self.physical_ms != other.physical_ms {
            self.physical_ms < other.physical_ms
        } else if self.logical != other.logical {
            self.logical < other.logical
        } else {
            bytes_lt(&self.node_id, &other.node_id)
        }
    }

    /// Whether the two timestamps are the same.
    pub fn same(&self, other: &Hlc) -> (r: bool)
        ensures
            r == (*self == *other),
    {
        if self.physical_ms != other.physical_ms || self.logical != other.logical {
            return false;
        }
        let mut i: usize = 0;
        while i < 8
            invariant
                i <= 8,
                forall|j: int| 0 <= j < i ==> self.node_id[j] == other.node_id[j],
            decreases 8 - i,
        {
            if self.node_id[i] != other.node_id[i] {
                return false;
            }
            i = i + 1;
        }
        assert(self.node_id =~= other.node_id);
        true
    }
}

} // verus!
