//! What a circuit means: the layer of each wire and the value it carries.
//!
//! Both are defined by following a wire back through its writing gate,
//! towards the inputs, for a bounded number of steps. In a circuit in
//! which every wire has at most one writer, a chain of gates that ends at
//! the inputs never needs more steps than there are gates.

use crate::circuit::{CircuitView, GateType, WireId};
use crate::graph::{acyclic, feeds, is_walk, lemma_long_walk};
use crate::ring::{combine, Ring};
use vstd::prelude::*;

verus! {

/// Some gate writes to `wire`.
pub open spec fn has_producer(c: CircuitView, wire: WireId) -> bool {
    exists|g: int| c.produces(g, wire)
}

/// A gate that writes to `wire`, where there is one.
pub open spec fn producer(c: CircuitView, wire: WireId) -> int {
    choose|g: int| c.produces(g, wire)
}

/// The layer above two layers: one more than the larger.
pub open spec fn layer_above(a: Option<nat>, b: Option<nat>) -> Option<nat> {
    match (a, b) {
        (Some(m), Some(n)) => Some(
            if m >= n {
                m + 1
            } else {
                n + 1
            },
        ),
        _ => None,
    }
}

/// The layer of `wire`, found by looking at most `depth` gates back: an
/// input wire has layer 0, and a wire written by a gate lies one layer above
/// the higher of that gate's two input wires. There is no layer where the
/// way back does not end at inputs within `depth` gates.
pub open spec fn layer_within(c: CircuitView, wire: WireId, depth: nat) -> Option<nat>
    decreases depth,
{
    if c.is_input(wire) {
        Some(0nat)
    } else if depth == 0 || !has_producer(c, wire) {
        None
    } else {
        let gate = c.gates[producer(c, wire)];
        layer_above(
            layer_within(c, gate.left(), (depth - 1) as nat),
            layer_within(c, gate.right(), (depth - 1) as nat),
        )
    }
}

/// The layer of `wire`: its distance from the inputs, counted in gates
/// along the longest way. `None` where the wire is not fed from the inputs
/// alone, as on a cycle or behind a wire that nothing writes.
pub open spec fn layer_of(c: CircuitView, wire: WireId) -> Option<nat> {
    layer_within(c, wire, c.gates.len())
}

/// The first scan of the gates in which gate `g` finds a layer on its input
/// wire `wire`, which got its layer in scan `scan` (an input wire before
/// the first scan, which counts as scan 0). A scan visits the gates in the
/// order of creation. So a wire written by an earlier gate than `g` is
/// found in the scan in which it was written, and any other wire in the
/// scan after.
pub open spec fn first_seen(c: CircuitView, wire: WireId, g: int, scan: nat) -> nat {
    if !c.is_input(wire) && producer(c, wire) < g {
        scan
    } else {
        scan + 1
    }
}

/// The later of the scans in which gate `g` finds a layer on its two input
/// wires, where both get one.
pub open spec fn scan_above(c: CircuitView, g: int, left: Option<nat>, right: Option<nat>) -> Option<nat> {
    match (left, right) {
        (Some(a), Some(b)) => {
            let x = first_seen(c, c.gates[g].left(), g, a);
            let y = first_seen(c, c.gates[g].right(), g, b);
            Some(
                if x >= y {
                    x
                } else {
                    y
                },
            )
        },
        _ => None,
    }
}

/// The scan of the gates in which `wire` gets its layer, found by looking
/// at most `depth` gates back. Layers are given in scans over the gates in
/// the order of creation: a gate gives its output wire a layer in the first
/// scan in which it finds a layer on both its input wires.
pub open spec fn scan_within(c: CircuitView, wire: WireId, depth: nat) -> Option<nat>
    decreases depth,
{
    if c.is_input(wire) {
        Some(0nat)
    } else if depth == 0 || !has_producer(c, wire) {
        None
    } else {
        let g = producer(c, wire);
        scan_above(
            c,
            g,
            scan_within(c, c.gates[g].left(), (depth - 1) as nat),
            scan_within(c, c.gates[g].right(), (depth - 1) as nat),
        )
    }
}

/// The scan in which `wire` gets its layer: 0 for an input wire, `None`
/// where the wire has no layer.
pub open spec fn scan_of(c: CircuitView, wire: WireId) -> Option<nat> {
    scan_within(c, wire, c.gates.len())
}

/// Gate `g` gives its output wire a layer before gate `h` does: in an
/// earlier scan, or in the same scan and earlier in the order of creation.
pub open spec fn layered_before(c: CircuitView, g: int, h: int) -> bool {
    let s = scan_of(c, c.gates[g].output());
    let t = scan_of(c, c.gates[h].output());
    s is Some && t is Some && (s->0 < t->0 || (s->0 == t->0 && g < h))
}

/// The place of the last mark of `wire` among the first `upto` input marks,
/// or -1 where it is not among them.
pub open spec fn last_mark(inputs: Seq<WireId>, wire: WireId, upto: int) -> int
    decreases upto,
{
    if upto <= 0 {
        -1
    } else if inputs[upto - 1] == wire {
        upto - 1
    } else {
        last_mark(inputs, wire, upto - 1)
    }
}

/// The value that an input wire takes from the given input values: the one
/// at the place where the wire was last marked.
pub open spec fn input_value<T: Ring>(c: CircuitView, values: Seq<T>, wire: WireId) -> T {
    values[last_mark(c.inputs, wire, c.inputs.len() as int)]
}

/// What two values give under a gate of the given kind, where both are
/// there.
pub open spec fn combine_some<T: Ring>(kind: GateType, a: Option<T>, b: Option<T>) -> Option<T> {
    match (a, b) {
        (Some(x), Some(y)) => Some(combine(kind, x, y)),
        _ => None,
    }
}

/// The value of `wire` under the given input values, found by looking at
/// most `depth` gates back: an input wire carries its input value, and a
/// wire written by a gate carries the sum or product of that gate's two
/// input wires.
pub open spec fn value_within<T: Ring>(c: CircuitView, values: Seq<T>, wire: WireId, depth: nat) -> Option<
    T,
>
    decreases depth,
{
    if c.is_input(wire) {
        Some(input_value(c, values, wire))
    } else if depth == 0 || !has_producer(c, wire) {
        None
    } else {
        let gate = c.gates[producer(c, wire)];
        combine_some(
            gate.kind(),
            value_within(c, values, gate.left(), (depth - 1) as nat),
            value_within(c, values, gate.right(), (depth - 1) as nat),
        )
    }
}

/// The value of `wire` under the given input values. `None` where the wire
/// has no layer.
pub open spec fn value_of<T: Ring>(c: CircuitView, values: Seq<T>, wire: WireId) -> Option<T> {
    value_within(c, values, wire, c.gates.len())
}

/// Every wire of the circuit has a layer.
pub open spec fn fully_layered(c: CircuitView) -> bool {
    forall|w: int| 0 <= w < c.wire_count ==> (#[trigger] layer_of(c, WireId(w as usize))) is Some
}

/// Where each wire has at most one writer, a gate that writes a wire is its
/// producer.
pub proof fn lemma_producer(c: CircuitView, g: int)
    requires
        c.single_producer(),
        0 <= g < c.gates.len(),
    ensures
        has_producer(c, c.gates[g].output()),
        producer(c, c.gates[g].output()) == g,
{
    let wire = c.gates[g].output();
    assert(c.produces(g, wire));
    let h = producer(c, wire);
    assert(c.produces(h, wire));
    let _ = (c.gates[g], c.gates[h]);
}

/// Looking further back does not change a layer that was found.
pub proof fn lemma_layer_deeper(c: CircuitView, wire: WireId, depth: nat, deeper: nat)
    requires
        depth <= deeper,
        layer_within(c, wire, depth) is Some,
    ensures
        layer_within(c, wire, deeper) == layer_within(c, wire, depth),
    decreases depth,
{
    if !c.is_input(wire) {
        let gate = c.gates[producer(c, wire)];
        lemma_layer_deeper(c, gate.left(), (depth - 1) as nat, (deeper - 1) as nat);
        lemma_layer_deeper(c, gate.right(), (depth - 1) as nat, (deeper - 1) as nat);
    }
}

/// Looking further back does not change a scan that was found.
pub proof fn lemma_scan_deeper(c: CircuitView, wire: WireId, depth: nat, deeper: nat)
    requires
        depth <= deeper,
        scan_within(c, wire, depth) is Some,
    ensures
        scan_within(c, wire, deeper) == scan_within(c, wire, depth),
    decreases depth,
{
    if !c.is_input(wire) {
        let gate = c.gates[producer(c, wire)];
        lemma_scan_deeper(c, gate.left(), (depth - 1) as nat, (deeper - 1) as nat);
        lemma_scan_deeper(c, gate.right(), (depth - 1) as nat, (deeper - 1) as nat);
    }
}

/// Looking further back does not change a value that was found.
pub proof fn lemma_value_deeper<T: Ring>(c: CircuitView, values: Seq<T>, wire: WireId, depth: nat, deeper: nat)
    requires
        depth <= deeper,
        value_within(c, values, wire, depth) is Some,
    ensures
        value_within(c, values, wire, deeper) == value_within(c, values, wire, depth),
    decreases depth,
{
    if !c.is_input(wire) {
        let gate = c.gates[producer(c, wire)];
        lemma_value_deeper(c, values, gate.left(), (depth - 1) as nat, (deeper - 1) as nat);
        lemma_value_deeper(c, values, gate.right(), (depth - 1) as nat, (deeper - 1) as nat);
    }
}

/// A wire has a value within a depth exactly when it has a layer within
/// that depth.
pub proof fn lemma_value_iff_layer<T: Ring>(c: CircuitView, values: Seq<T>, wire: WireId, depth: nat)
    ensures
        value_within(c, values, wire, depth) is Some <==> layer_within(c, wire, depth) is Some,
    decreases depth,
{
    if !c.is_input(wire) && depth > 0 && has_producer(c, wire) {
        let gate = c.gates[producer(c, wire)];
        lemma_value_iff_layer(c, values, gate.left(), (depth - 1) as nat);
        lemma_value_iff_layer(c, values, gate.right(), (depth - 1) as nat);
    }
}

/// The layers obey the gates: where the output wire of a gate has a layer
/// and is no input, both input wires of that gate have one, and the output
/// lies one layer above the higher of them.
pub proof fn lemma_gate_layer(c: CircuitView, g: int)
    requires
        c.single_producer(),
        0 <= g < c.gates.len(),
        !c.is_input(c.gates[g].output()),
        layer_of(c, c.gates[g].output()) is Some,
    ensures
        layer_of(c, c.gates[g].left()) is Some,
        layer_of(c, c.gates[g].right()) is Some,
        layer_of(c, c.gates[g].output()) == layer_above(
            layer_of(c, c.gates[g].left()),
            layer_of(c, c.gates[g].right()),
        ),
{
    let gate = c.gates[g];
    let below = (c.gates.len() - 1) as nat;
    lemma_producer(c, g);
    lemma_layer_deeper(c, gate.left(), below, c.gates.len());
    lemma_layer_deeper(c, gate.right(), below, c.gates.len());
}

/// The values obey the gates: where the output wire of a gate has a layer
/// and is no input, both input wires of that gate have a value, and the
/// output carries their sum or product.
pub proof fn lemma_gate_value<T: Ring>(c: CircuitView, values: Seq<T>, g: int)
    requires
        c.single_producer(),
        0 <= g < c.gates.len(),
        !c.is_input(c.gates[g].output()),
        layer_of(c, c.gates[g].output()) is Some,
    ensures
        value_of(c, values, c.gates[g].left()) is Some,
        value_of(c, values, c.gates[g].right()) is Some,
        value_of(c, values, c.gates[g].output()) == combine_some(
            c.gates[g].kind(),
            value_of(c, values, c.gates[g].left()),
            value_of(c, values, c.gates[g].right()),
        ),
{
    let gate = c.gates[g];
    let below = (c.gates.len() - 1) as nat;
    lemma_producer(c, g);
    lemma_value_iff_layer(c, values, gate.left(), below);
    lemma_value_iff_layer(c, values, gate.right(), below);
    lemma_value_deeper(c, values, gate.left(), below, c.gates.len());
    lemma_value_deeper(c, values, gate.right(), below, c.gates.len());
}

/// A wire that has a layer and is no input is written by a gate.
pub proof fn lemma_layer_source(c: CircuitView, wire: WireId)
    requires
        layer_of(c, wire) is Some,
    ensures
        c.is_input(wire) <==> layer_of(c, wire) == Some(0nat),
        !c.is_input(wire) ==> has_producer(c, wire) && c.produces(producer(c, wire), wire),
{
}

/// The last mark of a wire among the first `upto` marks is a place where
/// the wire is marked, and there is one exactly when the wire is among
/// them.
pub proof fn lemma_last_mark(inputs: Seq<WireId>, wire: WireId, upto: int)
    requires
        0 <= upto <= inputs.len(),
    ensures
        -1 <= last_mark(inputs, wire, upto) < upto,
        last_mark(inputs, wire, upto) >= 0 ==> inputs[last_mark(inputs, wire, upto)] == wire,
        last_mark(inputs, wire, upto) >= 0 <==> inputs.subrange(0, upto).contains(wire),
    decreases upto,
{
    if upto > 0 {
        lemma_last_mark(inputs, wire, upto - 1);
        let shorter = inputs.subrange(0, upto - 1);
        let longer = inputs.subrange(0, upto);
        if inputs[upto - 1] == wire {
            assert(longer[upto - 1] == wire);
        } else {
            if shorter.contains(wire) {
                let j = choose|j: int| 0 <= j < shorter.len() && shorter[j] == wire;
                assert(longer[j] == wire);
            }
            if longer.contains(wire) {
                let j = choose|j: int| 0 <= j < longer.len() && longer[j] == wire;
                assert(shorter[j] == wire);
            }
        }
    }
}

/// Every wire of the circuit is marked as an input or written by a gate.
pub open spec fn sourced(c: CircuitView) -> bool {
    forall|w: int|
        0 <= w < c.wire_count ==> c.is_input(WireId(w as usize)) || #[trigger] has_producer(
            c,
            WireId(w as usize),
        )
}

/// Behind a wire that has no layer within `depth` gates stands a walk of
/// `depth + 1` gates, the last of which writes the wire.
proof fn lemma_chain_behind(c: CircuitView, wire: WireId, depth: nat) -> (chain: Seq<int>)
    requires
        c.gates_in_range(),
        c.wire_count <= usize::MAX,
        sourced(c),
        wire.0 < c.wire_count,
        layer_within(c, wire, depth) is None,
    ensures
        is_walk(c, chain),
        chain.len() == depth + 1,
        c.gates[chain.last()].output() == wire,
    decreases depth,
{
    assert(has_producer(c, WireId(wire.0 as int as usize)));
    let g = producer(c, wire);
    assert(c.produces(g, wire));
    if depth == 0 {
        seq![g]
    } else {
        let gate = c.gates[g];
        let below = (depth - 1) as nat;
        let behind = if layer_within(c, gate.left(), below) is None {
            gate.left()
        } else {
            gate.right()
        };
        let shorter = lemma_chain_behind(c, behind, below);
        let chain = shorter.push(g);
        assert forall|i: int| 0 <= i < chain.len() - 1 implies feeds(c, #[trigger] chain[i], chain[i + 1]) by {
            if i < shorter.len() - 1 {
                assert(feeds(c, shorter[i], shorter[i + 1]));
            }
        }
        chain
    }
}

/// In a circuit without cycles in which every wire is an input or written
/// by a gate, every wire has a layer. An evaluation of such a circuit
/// cannot come upon an empty wire.
pub proof fn lemma_acyclic_fully_layered(c: CircuitView)
    requires
        c.gates_in_range(),
        c.wire_count <= usize::MAX,
        sourced(c),
        acyclic(c),
    ensures
        fully_layered(c),
{
    assert forall|w: int| 0 <= w < c.wire_count implies (#[trigger] layer_of(c, WireId(w as usize))) is Some by {
        let wire = WireId(w as usize);
        if layer_of(c, wire) is None {
            let chain = lemma_chain_behind(c, wire, c.gates.len());
            lemma_long_walk(c, chain);
        }
    }
}

} // verus!
