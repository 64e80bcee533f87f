//! The gates of a circuit as a graph: one gate feeds another when its
//! output wire is an input wire of the other.

use crate::circuit::{CircuitView, WireId};
use vstd::prelude::*;
use vstd::set_lib::{lemma_int_range, lemma_len_subset, set_int_range};

verus! {

/// Gate `a` feeds gate `b`: the output wire of `a` is an input of `b`.
pub open spec fn feeds(c: CircuitView, a: int, b: int) -> bool {
    &&& 0 <= a < c.gates.len()
    &&& 0 <= b < c.gates.len()
    &&& c.gates[b].reads(c.gates[a].output())
}

/// A walk is a sequence of one or more gates in which each feeds the next.
pub open spec fn is_walk(c: CircuitView, p: Seq<int>) -> bool {
    &&& p.len() > 0
    &&& forall|i: int| 0 <= i < p.len() ==> 0 <= #[trigger] p[i] < c.gates.len()
    &&& forall|i: int| 0 <= i < p.len() - 1 ==> feeds(c, #[trigger] p[i], p[i + 1])
}

/// Some walk leads from gate `a` to gate `b`.
pub open spec fn reaches(c: CircuitView, a: int, b: int) -> bool {
    exists|p: Seq<int>| #[trigger] is_walk(c, p) && p[0] == a && p.last() == b
}

/// Gate `g` reads a wire that is marked as an input of the circuit. The
/// search for cycles starts at these gates.
pub open spec fn is_seed(c: CircuitView, g: int) -> bool {
    &&& 0 <= g < c.gates.len()
    &&& exists|i: int| 0 <= i < c.inputs.len() && c.gates[g].reads(#[trigger] c.inputs[i])
}

/// Gate `g` can be reached from a gate that reads an input wire.
pub open spec fn reachable(c: CircuitView, g: int) -> bool {
    exists|s: int| #[trigger] is_seed(c, s) && reaches(c, s, g)
}

/// Gate `g` lies on a cycle whose last step enters `g` through `wire`: a
/// walk of two or more gates starts and ends at `g`, and `wire` is the
/// output of the last gate before the end.
pub open spec fn re_enters(c: CircuitView, g: int, wire: WireId) -> bool {
    exists|p: Seq<int>|
        #![trigger is_walk(c, p)]
        {
            &&& is_walk(c, p)
            &&& p.len() >= 2
            &&& p[0] == g
            &&& p.last() == g
            &&& c.gates[p[p.len() - 2]].output() == wire
        }
}

/// Gate `g` lies on a cycle: its output is, directly or through other gates,
/// one of its own inputs.
pub open spec fn on_cycle(c: CircuitView, g: int) -> bool {
    exists|p: Seq<int>| #[trigger] is_walk(c, p) && p.len() >= 2 && p[0] == g && p.last() == g
}

/// No gate of the circuit lies on a cycle.
pub open spec fn acyclic(c: CircuitView) -> bool {
    forall|g: int| !#[trigger] on_cycle(c, g)
}

/// No gate that can be reached from an input lies on a cycle.
pub open spec fn acyclic_from_inputs(c: CircuitView) -> bool {
    forall|g: int| #[trigger] reachable(c, g) ==> !on_cycle(c, g)
}

/// The tail of a walk of two or more gates is a walk.
pub proof fn lemma_walk_tail(c: CircuitView, p: Seq<int>)
    requires
        is_walk(c, p),
        p.len() >= 2,
    ensures
        is_walk(c, p.subrange(1, p.len() as int)),
        feeds(c, p[0], p[1]),
{
    let t = p.subrange(1, p.len() as int);
    assert forall|i: int| 0 <= i < t.len() - 1 implies feeds(c, #[trigger] t[i], t[i + 1]) by {
        assert(feeds(c, p[i + 1], p[i + 2]));
    }
}

/// A walk that ends where another starts can be continued by it.
pub proof fn lemma_walk_join(c: CircuitView, p: Seq<int>, q: Seq<int>)
    requires
        is_walk(c, p),
        is_walk(c, q),
        p.last() == q[0],
    ensures
        is_walk(c, p + q.subrange(1, q.len() as int)),
{
    let r = p + q.subrange(1, q.len() as int);
    assert forall|i: int| 0 <= i < r.len() - 1 implies feeds(c, #[trigger] r[i], r[i + 1]) by {
        if i < p.len() - 1 {
            assert(feeds(c, p[i], p[i + 1]));
        } else {
            let j = i - (p.len() - 1);
            assert(feeds(c, q[j], q[j + 1]));
        }
    }
}

/// A gate that a cycle enters again through a wire lies on a cycle and
/// reads that wire.
pub proof fn lemma_re_enters(c: CircuitView, g: int, wire: WireId)
    requires
        re_enters(c, g, wire),
    ensures
        on_cycle(c, g),
        c.gates[g].reads(wire),
{
    let p = choose|p: Seq<int>|
        #![trigger is_walk(c, p)]
        {
            &&& is_walk(c, p)
            &&& p.len() >= 2
            &&& p[0] == g
            &&& p.last() == g
            &&& c.gates[p[p.len() - 2]].output() == wire
        };
    assert(is_walk(c, p) && p.len() >= 2 && p[0] == g && p.last() == g);
    assert(feeds(c, p[p.len() - 2], p[p.len() - 2 + 1]));
}

/// A walk of more gates than the circuit has passes some gate twice, and
/// that gate lies on a cycle.
pub proof fn lemma_long_walk(c: CircuitView, walk: Seq<int>)
    requires
        is_walk(c, walk),
        walk.len() > c.gates.len(),
    ensures
        !acyclic(c),
{
    let all = set_int_range(0, c.gates.len() as int);
    lemma_int_range(0, c.gates.len() as int);
    if walk.no_duplicates() {
        walk.unique_seq_to_set();
        assert(walk.to_set().subset_of(all)) by {
            assert forall|g: int| walk.to_set().contains(g) implies all.contains(g) by {
                let i = choose|i: int| 0 <= i < walk.len() && walk[i] == g;
                assert(0 <= walk[i] < c.gates.len());
            }
        }
        lemma_len_subset(walk.to_set(), all);
    } else {
        let (i, j) = choose|i: int, j: int| 0 <= i < walk.len() && 0 <= j < walk.len() && i != j && walk[i] == walk[j];
        let (lo, hi) = if i < j {
            (i, j)
        } else {
            (j, i)
        };
        let round = walk.subrange(lo, hi + 1);
        assert forall|k: int| 0 <= k < round.len() - 1 implies feeds(c, #[trigger] round[k], round[k + 1]) by {
            assert(feeds(c, walk[lo + k], walk[lo + k + 1]));
        }
        assert(is_walk(c, round) && round.len() >= 2 && round[0] == walk[lo] && round.last() == walk[lo]);
        assert(on_cycle(c, walk[lo]));
    }
}

} // verus!
