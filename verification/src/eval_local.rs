//! Layering of a circuit and its evaluation on concrete values.

use crate::circuit::{Circuit, CircuitView, GateType, WireId};
use crate::ring::{closed, lawful, Ring};
use crate::semantics::{
    combine_some, first_seen, fully_layered, has_producer, last_mark, layer_of, layer_within, layered_before,
    lemma_gate_layer, lemma_gate_value, lemma_last_mark, lemma_layer_deeper, lemma_layer_source, lemma_producer,
    lemma_scan_deeper, producer, scan_within, value_of,
};
use vstd::prelude::*;
use vstd::set_lib::{lemma_int_range, lemma_len_subset, set_int_range};

verus! {

/// Why an evaluation failed.
#[derive(Debug, PartialEq, Eq, Structural)]
pub enum EvalLocalError {
    /// Some wire of the circuit has no layer, and so no value: it lies on a
    /// cycle, or behind a wire that is neither an input nor written by a
    /// gate.
    EmptyWire,
}

/// What is known of one wire while a circuit is evaluated. Wires marked as
/// inputs have layer 0. The output wire of a gate lies one layer above the
/// higher of its two input wires.
#[derive(Copy, Debug)]
pub struct Wire<T: Ring> {
    pub layer: Option<usize>,
    pub value: Option<T>,
}

impl<T: Ring> Clone for Wire<T> {
    fn clone(&self) -> (copy: Self)
        ensures
            copy == *self,
    {
        *self
    }
}

/// A layer number as a natural number.
pub open spec fn as_depth(layer: Option<usize>) -> Option<nat> {
    match layer {
        Some(n) => Some(n as nat),
        None => None,
    }
}

/// Each wire carries the layer that the circuit gives it.
pub open spec fn layered<T: Ring>(c: CircuitView, wires: Seq<Wire<T>>) -> bool {
    &&& wires.len() == c.wire_count
    &&& forall|w: int|
        0 <= w < wires.len() ==> as_depth((#[trigger] wires[w]).layer) == layer_of(c, WireId(w as usize))
}

/// The buckets group the gates by the layer of their output wire: bucket
/// `k` holds, each once, the gates whose output wire has layer `k`. Gates
/// that write to an input wire or to a wire without a layer are in no
/// bucket. Layer 0 belongs to the inputs, so bucket 0 is empty; every other
/// bucket holds a gate, and there is no bucket at all where no gate is in
/// one.
pub open spec fn bucketed(c: CircuitView, buckets: Seq<Vec<usize>>) -> bool {
    &&& forall|k: int, j: int|
        0 <= k < buckets.len() && 0 <= j < buckets[k]@.len() ==> {
            let g = #[trigger] buckets[k]@[j];
            &&& g < c.gates.len()
            &&& !c.is_input(c.gates[g as int].output())
            &&& layer_of(c, c.gates[g as int].output()) == Some(k as nat)
        }
    &&& forall|g: int|
        0 <= g < c.gates.len() && !c.is_input((#[trigger] c.gates[g]).output()) ==> (layer_of(
            c,
            c.gates[g].output(),
        ) matches Some(n) ==> 0 < n < buckets.len() && buckets[n as int]@.contains(g as usize))
    &&& forall|k: int|
        0 <= k < buckets.len() ==> (#[trigger] buckets[k])@.no_duplicates() && (buckets[k]@.len() == 0 <==> k
            == 0)
    &&& buckets.len() != 1
}

/// Inside a bucket the gates stand in the order in which they gave their
/// output wires a layer: by scan, and inside one scan by the order of
/// creation.
pub open spec fn ordered(c: CircuitView, buckets: Seq<Vec<usize>>) -> bool {
    forall|k: int, x: int, y: int|
        0 <= k < buckets.len() && 0 <= x < y < buckets[k]@.len() ==> layered_before(
            c,
            #[trigger] buckets[k]@[x] as int,
            #[trigger] buckets[k]@[y] as int,
        )
}

/// The layers of a sequence of wires.
spec fn layers<T: Ring>(wires: Seq<Wire<T>>) -> Seq<Option<usize>> {
    Seq::new(wires.len(), |w: int| wires[w].layer)
}

/// The contents of a sequence of buckets.
spec fn contents(buckets: Seq<Vec<usize>>) -> Seq<Seq<usize>> {
    Seq::new(buckets.len(), |k: int| buckets[k]@)
}

/// The larger of two numbers.
spec fn larger(a: int, b: int) -> int {
    if a >= b {
        a
    } else {
        b
    }
}

/// What holds while layers are being assigned. `done` is the set of gates
/// whose output wire got its layer from them.
#[verifier::opaque]
spec fn partial(c: CircuitView, ls: Seq<Option<usize>>, bs: Seq<Seq<usize>>, done: Set<int>) -> bool {
    &&& ls.len() == c.wire_count <= usize::MAX
    &&& done.finite()
    &&& forall|w: int| 0 <= w < ls.len() && c.is_input(WireId(w as usize)) ==> #[trigger] ls[w] == Some(0usize)
    &&& forall|w: int|
        0 <= w < ls.len() ==> (#[trigger] ls[w] matches Some(n) ==> n <= done.len() && layer_within(
            c,
            WireId(w as usize),
            n as nat,
        ) == Some(n as nat))
    &&& forall|w: int|
        0 <= w < ls.len() && (#[trigger] ls[w]) is Some && !c.is_input(WireId(w as usize)) ==> has_producer(
            c,
            WireId(w as usize),
        ) && done.contains(producer(c, WireId(w as usize)))
    &&& forall|g: int| #[trigger]
        done.contains(g) ==> {
            &&& 0 <= g < c.gates.len()
            &&& !c.is_input(c.gates[g].output())
            &&& ls[c.gates[g].output().0 as int] matches Some(n) && 0 < n < bs.len() && bs[n as int].contains(
                g as usize,
            )
        }
    &&& forall|k: int, j: int|
        0 <= k < bs.len() && 0 <= j < bs[k].len() ==> {
            let g = #[trigger] bs[k][j];
            &&& done.contains(g as int)
            &&& ls[c.gates[g as int].output().0 as int] matches Some(n) && n == k
        }
    &&& forall|k: int| 0 <= k < bs.len() ==> (#[trigger] bs[k]).no_duplicates() && (bs[k].len() == 0 <==> k == 0)
    &&& bs.len() != 1
}

/// Each of the first `upto` gates whose two input wires have a layer has
/// one on its output wire too.
spec fn settled(c: CircuitView, ls: Seq<Option<usize>>, upto: int) -> bool {
    forall|g: int|
        0 <= g < upto ==> {
            let gate = #[trigger] c.gates[g];
            ls[gate.left().0 as int] is Some && ls[gate.right().0 as int] is Some ==> ls[gate.output().0 as int] is Some
        }
}

/// The buckets with empty ones added at the end until there is a bucket
/// `k`.
spec fn grown(bs: Seq<Seq<usize>>, k: int) -> Seq<Seq<usize>> {
    if k < bs.len() {
        bs
    } else {
        bs + Seq::new((k + 1 - bs.len()) as nat, |i: int| Seq::<usize>::empty())
    }
}

/// The buckets after gate `g` was put into bucket `k`, which is made first
/// where it is not there yet.
spec fn put(bs: Seq<Seq<usize>>, k: int, g: usize) -> Seq<Seq<usize>> {
    grown(bs, k).update(k, grown(bs, k)[k].push(g))
}

/// Before any gate was looked at, the inputs have layer 0 and nothing else
/// has a layer.
proof fn lemma_partial_start(c: CircuitView, ls: Seq<Option<usize>>)
    requires
        ls.len() == c.wire_count <= usize::MAX,
        forall|w: int|
            0 <= w < ls.len() ==> #[trigger] ls[w] == if c.is_input(WireId(w as usize)) {
                Some(0usize)
            } else {
                None
            },
    ensures
        partial(c, ls, Seq::empty(), Set::empty()),
{
    reveal(partial);
}

/// Giving the output wire of gate `g` its layer keeps what holds while
/// layers are assigned, and the new layer is at most the number of gates.
proof fn lemma_partial_step(
    c: CircuitView,
    ls: Seq<Option<usize>>,
    bs: Seq<Seq<usize>>,
    done: Set<int>,
    g: int,
)
    requires
        partial(c, ls, bs, done),
        c.layerable(),
        0 <= g < c.gates.len() <= usize::MAX,
        ls[c.gates[g].output().0 as int] is None,
        ls[c.gates[g].left().0 as int] is Some,
        ls[c.gates[g].right().0 as int] is Some,
    ensures
        ({
            let a = ls[c.gates[g].left().0 as int]->0;
            let b = ls[c.gates[g].right().0 as int]->0;
            let top = larger(a as int, b as int);
            &&& top + 1 <= c.gates.len()
            &&& !done.contains(g)
            &&& done.insert(g).len() == done.len() + 1 <= c.gates.len()
            &&& partial(
                c,
                ls.update(c.gates[g].output().0 as int, Some((top + 1) as usize)),
                put(bs, top + 1, g as usize),
                done.insert(g),
            )
        }),
{
    reveal(partial);
    let gate = c.gates[g];
    let out = gate.output().0 as int;
    let a = ls[gate.left().0 as int]->0;
    let b = ls[gate.right().0 as int]->0;
    let top = larger(a as int, b as int);
    let at = top + 1;
    let more = done.insert(g);
    let ls2 = ls.update(out, Some(at as usize));
    let wide = grown(bs, at);
    let bs2 = put(bs, at, g as usize);

    // gate `g` is new, so there is still room below the number of gates
    assert(!done.contains(g));
    lemma_int_range(0, c.gates.len() as int);
    assert(more.subset_of(set_int_range(0, c.gates.len() as int)));
    lemma_len_subset(more, set_int_range(0, c.gates.len() as int));
    assert(more.len() == done.len() + 1);
    assert(at <= c.gates.len());

    // the bucket of the new layer is there already or is the next one, or
    // it is bucket 1 where there is none yet: the higher input wire is an
    // input of the circuit or was written by a gate of the bucket below
    assert(at <= bs.len() || (bs.len() == 0 && at == 1)) by {
        if top > 0 {
            let high = if a as int >= b as int {
                gate.left().0 as int
            } else {
                gate.right().0 as int
            };
            assert(ls[high] == Some(top as usize));
            assert(!c.is_input(WireId(high as usize)));
            assert(done.contains(producer(c, WireId(high as usize))));
        }
    }
    assert(bs2.len() == wide.len());
    assert(wide.len() >= 2);
    assert forall|k: int| 0 <= k < bs.len() implies #[trigger] wide[k] == bs[k] by {}
    assert forall|k: int| bs.len() <= k < wide.len() implies (#[trigger] wide[k]).len() == 0 by {}
    assert(!c.is_input(gate.output()));

    // the new layer is the one that the circuit gives the wire
    lemma_producer(c, g);
    lemma_layer_deeper(c, gate.left(), a as nat, top as nat);
    lemma_layer_deeper(c, gate.right(), b as nat, top as nat);
    assert(layer_within(c, gate.output(), at as nat) == Some(at as nat));

    assert forall|k: int, j: int| 0 <= k < bs2.len() && 0 <= j < bs2[k].len() implies {
        let h = #[trigger] bs2[k][j];
        &&& more.contains(h as int)
        &&& ls2[c.gates[h as int].output().0 as int] matches Some(n) && n == k
    } by {
        if k == at && j == bs2[k].len() - 1 {
            assert(bs2[k][j] == g as usize);
        } else {
            assert(bs2[k][j] == wide[k][j]);
            assert(k < bs.len());
            assert(bs2[k][j] == bs[k][j]);
        }
    }
    assert forall|h: int| #[trigger] more.contains(h) implies {
        &&& 0 <= h < c.gates.len()
        &&& !c.is_input(c.gates[h].output())
        &&& ls2[c.gates[h].output().0 as int] matches Some(n) && 0 < n < bs2.len() && bs2[n as int].contains(
            h as usize,
        )
    } by {
        if h == g {
            assert(bs2[at][bs2[at].len() - 1] == g as usize);
        } else {
            let n = ls[c.gates[h].output().0 as int]->0;
            let same = bs[n as int];
            let j = choose|j: int| 0 <= j < same.len() && same[j] == h as usize;
            assert(bs2[n as int][j] == h as usize);
        }
    }
    assert forall|k: int| 0 <= k < bs2.len() implies (#[trigger] bs2[k]).no_duplicates() && (bs2[k].len() == 0 <==> k
        == 0) by {
        if k == at {
            assert forall|i: int, j: int| 0 <= i < bs2[k].len() && 0 <= j < bs2[k].len() && i != j implies bs2[k][i]
                != bs2[k][j] by {
                if at < bs.len() {
                    if i < bs[k].len() {
                        assert(done.contains(bs[k][i] as int));
                    }
                    if j < bs[k].len() {
                        assert(done.contains(bs[k][j] as int));
                    }
                }
            }
        } else {
            assert(bs2[k] == wide[k]);
            if k < bs.len() {
                assert(bs2[k] == bs[k]);
            }
        }
    }
    assert forall|w: int| 0 <= w < ls2.len() && (#[trigger] ls2[w]) is Some && !c.is_input(
        WireId(w as usize),
    ) implies has_producer(c, WireId(w as usize)) && more.contains(producer(c, WireId(w as usize))) by {
        if w != out {
            assert(ls[w] is Some);
        }
    }
    assert forall|w: int| 0 <= w < ls2.len() implies (#[trigger] ls2[w] matches Some(n) ==> n <= more.len()
        && layer_within(c, WireId(w as usize), n as nat) == Some(n as nat)) by {
        if w != out {
            assert(ls2[w] == ls[w]);
        }
    }
}

/// Where the inputs have a layer and every gate is settled, each wire to
/// which the circuit gives a layer has one.
proof fn lemma_settled_complete(c: CircuitView, ls: Seq<Option<usize>>, wire: WireId, depth: nat)
    requires
        c.gates_in_range(),
        ls.len() == c.wire_count,
        forall|w: int| 0 <= w < ls.len() && c.is_input(WireId(w as usize)) ==> (#[trigger] ls[w]) is Some,
        settled(c, ls, c.gates.len() as int),
        wire.0 < c.wire_count,
        layer_within(c, wire, depth) is Some,
    ensures
        ls[wire.0 as int] is Some,
    decreases depth,
{
    if !c.is_input(wire) {
        let g = producer(c, wire);
        let gate = c.gates[g];
        assert(c.produces(g, wire));
        lemma_settled_complete(c, ls, gate.left(), (depth - 1) as nat);
        lemma_settled_complete(c, ls, gate.right(), (depth - 1) as nat);
    }
}

/// What the layers satisfy while they are being assigned.
proof fn lemma_partial_layers(c: CircuitView, ls: Seq<Option<usize>>, bs: Seq<Seq<usize>>, done: Set<int>)
    requires
        partial(c, ls, bs, done),
    ensures
        ls.len() == c.wire_count <= usize::MAX,
        done.len() <= c.gates.len(),
        forall|w: int| 0 <= w < ls.len() && c.is_input(WireId(w as usize)) ==> (#[trigger] ls[w]) is Some,
        forall|w: int|
            0 <= w < ls.len() ==> (#[trigger] ls[w] matches Some(n) ==> n <= done.len() && layer_within(
                c,
                WireId(w as usize),
                n as nat,
            ) == Some(n as nat)),
{
    reveal(partial);
    lemma_int_range(0, c.gates.len() as int);
    assert(done.subset_of(set_int_range(0, c.gates.len() as int)));
    lemma_len_subset(done, set_int_range(0, c.gates.len() as int));
}

/// When every wire has a layer, or no gate can give one any more, the
/// layers are those of the circuit.
proof fn lemma_end_layers(c: CircuitView, ls: Seq<Option<usize>>, bs: Seq<Seq<usize>>, done: Set<int>)
    requires
        c.layerable(),
        c.gates.len() <= usize::MAX,
        partial(c, ls, bs, done),
        settled(c, ls, c.gates.len() as int) || forall|w: int| 0 <= w < ls.len() ==> (#[trigger] ls[w]) is Some,
    ensures
        ls.len() == c.wire_count <= usize::MAX,
        forall|w: int| 0 <= w < ls.len() ==> as_depth(#[trigger] ls[w]) == layer_of(c, WireId(w as usize)),
{
    lemma_partial_layers(c, ls, bs, done);
    assert forall|w: int| 0 <= w < ls.len() implies as_depth(#[trigger] ls[w]) == layer_of(
        c,
        WireId(w as usize),
    ) by {
        let wire = WireId(w as usize);
        match ls[w] {
            Some(n) => {
                lemma_layer_deeper(c, wire, n as nat, c.gates.len());
            },
            None => {
                if layer_of(c, wire) is Some {
                    lemma_settled_complete(c, ls, wire, c.gates.len());
                }
            },
        }
    }
}

/// With the layers of the circuit on the wires, the buckets are those of
/// the circuit.
proof fn lemma_end_buckets(c: CircuitView, ls: Seq<Option<usize>>, bs: Seq<Seq<usize>>, done: Set<int>)
    requires
        c.layerable(),
        c.gates.len() <= usize::MAX,
        partial(c, ls, bs, done),
        ls.len() <= usize::MAX,
        forall|w: int| 0 <= w < ls.len() ==> as_depth(#[trigger] ls[w]) == layer_of(c, WireId(w as usize)),
    ensures
        forall|k: int, j: int|
            0 <= k < bs.len() && 0 <= j < bs[k].len() ==> {
                let g = #[trigger] bs[k][j];
                &&& g < c.gates.len()
                &&& !c.is_input(c.gates[g as int].output())
                &&& layer_of(c, c.gates[g as int].output()) == Some(k as nat)
            },
        forall|g: int|
            0 <= g < c.gates.len() && !c.is_input((#[trigger] c.gates[g]).output()) ==> (layer_of(
                c,
                c.gates[g].output(),
            ) matches Some(n) ==> 0 < n < bs.len() && bs[n as int].contains(g as usize)),
        forall|k: int| 0 <= k < bs.len() ==> (#[trigger] bs[k]).no_duplicates() && (bs[k].len() == 0 <==> k == 0),
        bs.len() != 1,
{
    reveal(partial);
    assert forall|k: int, j: int| 0 <= k < bs.len() && 0 <= j < bs[k].len() implies {
        let g = #[trigger] bs[k][j];
        &&& g < c.gates.len()
        &&& !c.is_input(c.gates[g as int].output())
        &&& layer_of(c, c.gates[g as int].output()) == Some(k as nat)
    } by {
        let g = bs[k][j];
        assert(done.contains(g as int));
        let out = c.gates[g as int].output().0 as int;
        assert(as_depth(ls[out]) == layer_of(c, WireId(out as usize)));
    }
    assert forall|g: int|
        0 <= g < c.gates.len() && !c.is_input((#[trigger] c.gates[g]).output()) implies (layer_of(
        c,
        c.gates[g].output(),
    ) matches Some(n) ==> 0 < n < bs.len() && bs[n as int].contains(g as usize)) by {
        let out = c.gates[g].output();
        if layer_of(c, out) is Some {
            assert(as_depth(ls[out.0 as int]) == layer_of(c, WireId(out.0)));
            lemma_producer(c, g);
            assert(done.contains(g));
        }
    }
}

/// When every wire has a layer, or no gate can give one any more, the
/// layers and buckets are those of the circuit.
proof fn lemma_partial_end<T: Ring>(
    c: CircuitView,
    wires: Seq<Wire<T>>,
    buckets: Seq<Vec<usize>>,
    done: Set<int>,
)
    requires
        c.layerable(),
        c.gates.len() <= usize::MAX,
        partial(c, layers(wires), contents(buckets), done),
        settled(c, layers(wires), c.gates.len() as int) || forall|w: int|
            0 <= w < wires.len() ==> (#[trigger] wires[w]).layer is Some,
    ensures
        layered(c, wires),
        bucketed(c, buckets),
{
    let ls = layers(wires);
    let bs = contents(buckets);
    assert(forall|w: int| 0 <= w < wires.len() ==> (#[trigger] wires[w]).layer == ls[w]);
    assert(forall|k: int| 0 <= k < buckets.len() ==> (#[trigger] buckets[k])@ == bs[k]);
    if !settled(c, ls, c.gates.len() as int) {
        assert forall|w: int| 0 <= w < ls.len() implies (#[trigger] ls[w]) is Some by {
            let _ = wires[w];
        }
    }
    lemma_end_layers(c, ls, bs, done);
    lemma_end_buckets(c, ls, bs, done);
    assert forall|w: int| 0 <= w < wires.len() implies as_depth((#[trigger] wires[w]).layer) == layer_of(
        c,
        WireId(w as usize),
    ) by {
        let _ = ls[w];
    }
    assert forall|k: int, j: int| 0 <= k < buckets.len() && 0 <= j < buckets[k]@.len() implies {
        let g = #[trigger] buckets[k]@[j];
        &&& g < c.gates.len()
        &&& !c.is_input(c.gates[g as int].output())
        &&& layer_of(c, c.gates[g as int].output()) == Some(k as nat)
    } by {
        let _ = bs[k][j];
    }
    assert forall|g: int|
        0 <= g < c.gates.len() && !c.is_input((#[trigger] c.gates[g]).output()) implies (layer_of(
        c,
        c.gates[g].output(),
    ) matches Some(n) ==> 0 < n < buckets.len() && buckets[n as int]@.contains(g as usize)) by {
        if layer_of(c, c.gates[g].output()) is Some {
            let n = layer_of(c, c.gates[g].output())->0;
            assert(bs[n as int] == buckets[n as int]@);
        }
    }
    assert forall|k: int| 0 <= k < buckets.len() implies (#[trigger] buckets[k])@.no_duplicates() && (
    buckets[k]@.len() == 0 <==> k == 0) by {
        let _ = bs[k];
    }
}

/// Place `g` of scan `s` comes before place `h` of scan `t`.
spec fn sooner(s: int, g: int, t: int, h: int) -> bool {
    s < t || (s == t && g < h)
}

/// Up to scan `upto`, gate `g` has not found a layer on both its input
/// wires: one of them has none, or gets it too late.
spec fn blocked(c: CircuitView, ls: Seq<Option<usize>>, ts: Seq<nat>, g: int, upto: int) -> bool {
    let l = c.gates[g].left();
    let r = c.gates[g].right();
    ||| ls[l.0 as int] is None
    ||| first_seen(c, l, g, ts[l.0 as int]) > upto
    ||| ls[r.0 as int] is None
    ||| first_seen(c, r, g, ts[r.0 as int]) > upto
}

/// What holds of the scans while layers are being assigned, when gate `i`
/// is the next to be looked at in scan `round`. `ts` holds, for each wire
/// that has a layer, the scan in which it got it.
#[verifier::opaque]
spec fn timed(
    c: CircuitView,
    ls: Seq<Option<usize>>,
    ts: Seq<nat>,
    bs: Seq<Seq<usize>>,
    round: int,
    i: int,
) -> bool {
    &&& ts.len() == ls.len()
    &&& round >= 1
    &&& 0 <= i <= c.gates.len()
    &&& forall|w: int|
        0 <= w < ls.len() ==> (#[trigger] ls[w] matches Some(n) ==> scan_within(c, WireId(w as usize), n as nat)
            == Some(ts[w]))
    &&& forall|w: int|
        0 <= w < ls.len() && (#[trigger] ls[w]) is Some && !c.is_input(WireId(w as usize)) ==> sooner(
            ts[w] as int,
            producer(c, WireId(w as usize)),
            round,
            i,
        )
    &&& forall|g: int|
        0 <= g < c.gates.len() && ls[(#[trigger] c.gates[g]).output().0 as int] is None ==> blocked(
            c,
            ls,
            ts,
            g,
            if g < i {
                round
            } else {
                round - 1
            },
        )
    &&& forall|k: int, x: int, y: int|
        0 <= k < bs.len() && 0 <= x < y < bs[k].len() ==> sooner(
            ts[c.gates[#[trigger] bs[k][x] as int].output().0 as int] as int,
            bs[k][x] as int,
            ts[c.gates[#[trigger] bs[k][y] as int].output().0 as int] as int,
            bs[k][y] as int,
        )
}

/// Before the first scan only the inputs have a layer.
proof fn lemma_timed_start(c: CircuitView, ls: Seq<Option<usize>>, ts: Seq<nat>)
    requires
        c.gates_in_range(),
        ls.len() == c.wire_count <= usize::MAX,
        ts.len() == ls.len(),
        forall|w: int| 0 <= w < ts.len() ==> #[trigger] ts[w] == 0,
        forall|w: int|
            0 <= w < ls.len() ==> #[trigger] ls[w] == if c.is_input(WireId(w as usize)) {
                Some(0usize)
            } else {
                None
            },
    ensures
        timed(c, ls, ts, Seq::empty(), 1, 0),
{
    reveal(timed);
    assert forall|g: int|
        0 <= g < c.gates.len() && ls[(#[trigger] c.gates[g]).output().0 as int] is None implies blocked(
        c,
        ls,
        ts,
        g,
        0,
    ) by {
        let l = c.gates[g].left();
        let _ = ls[l.0 as int];
        assert(WireId(l.0 as int as usize) == l);
    }
}

/// A gate that gives no layer now is passed over.
proof fn lemma_timed_skip(
    c: CircuitView,
    ls: Seq<Option<usize>>,
    ts: Seq<nat>,
    bs: Seq<Seq<usize>>,
    round: int,
    i: int,
)
    requires
        timed(c, ls, ts, bs, round, i),
        0 <= i < c.gates.len(),
        ls[c.gates[i].output().0 as int] is Some || ls[c.gates[i].left().0 as int] is None
            || ls[c.gates[i].right().0 as int] is None,
    ensures
        timed(c, ls, ts, bs, round, i + 1),
{
    reveal(timed);
}

/// After the last gate of a scan comes the first gate of the next.
proof fn lemma_timed_next(c: CircuitView, ls: Seq<Option<usize>>, ts: Seq<nat>, bs: Seq<Seq<usize>>, round: int)
    requires
        timed(c, ls, ts, bs, round, c.gates.len() as int),
    ensures
        timed(c, ls, ts, bs, round + 1, 0),
{
    reveal(timed);
}

/// A gate that gives its output wire a layer does so in the scan that the
/// circuit gives the wire, and after every gate that did so before.
proof fn lemma_timed_label(
    c: CircuitView,
    ls: Seq<Option<usize>>,
    ts: Seq<nat>,
    bs: Seq<Seq<usize>>,
    done: Set<int>,
    round: int,
    i: int,
)
    requires
        c.layerable(),
        partial(c, ls, bs, done),
        timed(c, ls, ts, bs, round, i),
        0 <= i < c.gates.len() <= usize::MAX,
        ls[c.gates[i].output().0 as int] is None,
        ls[c.gates[i].left().0 as int] is Some,
        ls[c.gates[i].right().0 as int] is Some,
    ensures
        ({
            let a = ls[c.gates[i].left().0 as int]->0;
            let b = ls[c.gates[i].right().0 as int]->0;
            let at = larger(a as int, b as int) + 1;
            timed(
                c,
                ls.update(c.gates[i].output().0 as int, Some(at as usize)),
                ts.update(c.gates[i].output().0 as int, round as nat),
                put(bs, at, i as usize),
                round,
                i + 1,
            )
        }),
{
    lemma_partial_step(c, ls, bs, done, i);
    reveal(partial);
    reveal(timed);
    let gate = c.gates[i];
    let out = gate.output().0 as int;
    let l = gate.left();
    let r = gate.right();
    let a = ls[l.0 as int]->0;
    let b = ls[r.0 as int]->0;
    let top = larger(a as int, b as int);
    let at = top + 1;
    let ls2 = ls.update(out, Some(at as usize));
    let ts2 = ts.update(out, round as nat);
    let wide = grown(bs, at);
    let bs2 = put(bs, at, i as usize);
    assert(WireId(l.0 as int as usize) == l);
    assert(WireId(r.0 as int as usize) == r);
    assert(WireId(out as usize) == gate.output());
    assert(!c.is_input(gate.output()));
    lemma_producer(c, i);

    // the scan that the circuit gives the output wire is this one
    lemma_scan_deeper(c, l, a as nat, top as nat);
    lemma_scan_deeper(c, r, b as nat, top as nat);
    let x = first_seen(c, l, i, ts[l.0 as int]);
    let y = first_seen(c, r, i, ts[r.0 as int]);
    assert(x <= round && y <= round) by {
        let _ = (ls[l.0 as int], ls[r.0 as int]);
    }
    assert(x >= round || y >= round) by {
        assert(blocked(c, ls, ts, i, round - 1));
    }
    assert(scan_within(c, gate.output(), at as nat) == Some(round as nat));

    assert forall|w: int| 0 <= w < ls2.len() implies (#[trigger] ls2[w] matches Some(n) ==> scan_within(
        c,
        WireId(w as usize),
        n as nat,
    ) == Some(ts2[w])) by {
        if w != out {
            assert(ls2[w] == ls[w]);
        }
    }
    assert forall|w: int|
        0 <= w < ls2.len() && (#[trigger] ls2[w]) is Some && !c.is_input(WireId(w as usize)) implies sooner(
        ts2[w] as int,
        producer(c, WireId(w as usize)),
        round,
        i + 1,
    ) by {
        if w != out {
            assert(ls[w] is Some);
        }
    }
    assert forall|g: int|
        0 <= g < c.gates.len() && ls2[(#[trigger] c.gates[g]).output().0 as int] is None implies blocked(
        c,
        ls2,
        ts2,
        g,
        if g < i + 1 {
            round
        } else {
            round - 1
        },
    ) by {
        let upto = if g < i {
            round
        } else {
            round - 1
        };
        assert(g != i);
        assert(ls[c.gates[g].output().0 as int] is None);
        assert(blocked(c, ls, ts, g, upto));
        let gl = c.gates[g].left();
        let gr = c.gates[g].right();
        assert(WireId(gl.0 as int as usize) == gl);
        assert(WireId(gr.0 as int as usize) == gr);
        if gl.0 == out {
            assert(first_seen(c, gl, g, ts2[gl.0 as int]) > upto);
        } else if gr.0 == out {
            assert(first_seen(c, gr, g, ts2[gr.0 as int]) > upto);
        }
    }
    assert forall|k: int| 0 <= k < bs.len() implies #[trigger] wide[k] == bs[k] by {}
    assert forall|k: int, x: int, y: int| 0 <= k < bs2.len() && 0 <= x < y < bs2[k].len() implies sooner(
        ts2[c.gates[#[trigger] bs2[k][x] as int].output().0 as int] as int,
        bs2[k][x] as int,
        ts2[c.gates[#[trigger] bs2[k][y] as int].output().0 as int] as int,
        bs2[k][y] as int,
    ) by {
        if k < bs.len() {
            let e = bs[k][x];
            assert(bs2[k][x] == e);
            assert(done.contains(e as int));
            lemma_producer(c, e as int);
            let ew = c.gates[e as int].output().0 as int;
            assert(WireId(ew as usize) == c.gates[e as int].output());
            assert(ls[ew] is Some);
            if k == at && y == bs2[k].len() - 1 {
                assert(bs2[k][y] == i as usize);
            } else {
                let f = bs[k][y];
                assert(bs2[k][y] == f);
                assert(done.contains(f as int));
                assert(ls[c.gates[f as int].output().0 as int] is Some);
            }
        } else {
            assert(bs2[k].len() <= 1);
        }
    }
}

/// With the layers of the circuit on the wires, the gates stand in each
/// bucket in the order in which the circuit gives their output wires a
/// layer.
proof fn lemma_timed_end<T: Ring>(
    c: CircuitView,
    wires: Seq<Wire<T>>,
    ts: Seq<nat>,
    buckets: Seq<Vec<usize>>,
    done: Set<int>,
    round: int,
    i: int,
)
    requires
        c.layerable(),
        c.gates.len() <= usize::MAX,
        partial(c, layers(wires), contents(buckets), done),
        timed(c, layers(wires), ts, contents(buckets), round, i),
    ensures
        ordered(c, buckets),
{
    let ls = layers(wires);
    let bs = contents(buckets);
    lemma_partial_layers(c, ls, bs, done);
    reveal(partial);
    reveal(timed);
    assert forall|k: int, x: int, y: int| 0 <= k < buckets.len() && 0 <= x < y < buckets[k]@.len() implies layered_before(
        c,
        #[trigger] buckets[k]@[x] as int,
        #[trigger] buckets[k]@[y] as int,
    ) by {
        let e = bs[k][x];
        let f = bs[k][y];
        assert(done.contains(e as int) && done.contains(f as int));
        let ew = c.gates[e as int].output().0 as int;
        let fw = c.gates[f as int].output().0 as int;
        assert(WireId(ew as usize) == c.gates[e as int].output());
        assert(WireId(fw as usize) == c.gates[f as int].output());
        lemma_scan_deeper(c, WireId(ew as usize), (ls[ew]->0) as nat, c.gates.len());
        lemma_scan_deeper(c, WireId(fw as usize), (ls[fw]->0) as nat, c.gates.len());
    }
}

/// Whether every wire has a layer.
fn all_labelled<T: Ring>(wires: &Vec<Wire<T>>) -> (all: bool)
    ensures
        all <==> forall|w: int| 0 <= w < wires@.len() ==> (#[trigger] wires@[w]).layer is Some,
{
    let mut w: usize = 0;
    while w < wires.len()
        invariant
            w <= wires@.len(),
            forall|v: int| 0 <= v < w ==> (#[trigger] wires@[v]).layer is Some,
        decreases wires@.len() - w,
    {
        if wires[w].layer.is_none() {
            return false;
        }
        w += 1;
    }
    true
}

/// Gives each wire its layer and groups the gates by layer.
///
/// Input wires get layer 0. The gates are then scanned again and again: a
/// gate whose output wire has no layer yet, and whose two input wires have
/// one, gives its output wire the layer above the higher of the two and
/// goes into the bucket of that layer. The scans end when every wire has a
/// layer or a whole scan has given none.
///
/// The first part of the result holds the buckets, indexed by layer number.
/// Inside a bucket the gates stand in the order in which they got there: by
/// scan, and inside one scan by the order of creation. The second part
/// holds, for each wire, its layer and no value yet.
pub fn label_wires_with_layer<T: Ring>(circuit: &Circuit) -> (res: (Vec<Vec<usize>>, Vec<Wire<T>>))
    requires
        circuit@.layerable(),
    ensures
        bucketed(circuit@, res.0@),
        ordered(circuit@, res.0@),
        layered(circuit@, res.1@),
        forall|w: int| 0 <= w < res.1@.len() ==> (#[trigger] res.1@[w]).value is None,
{
    let ghost c = circuit@;
    let wire_count = circuit.get_wire_count();
    let mut wires: Vec<Wire<T>> = Vec::new();
    let mut n: usize = 0;
    while n < wire_count
        invariant
            n <= wire_count,
            wires@.len() == n,
            forall|w: int| 0 <= w < n ==> (#[trigger] wires@[w]).layer is None && wires@[w].value is None,
        decreases wire_count - n,
    {
        wires.push(Wire { layer: None, value: None });
        n += 1;
    }

    let mut gate_layers: Vec<Vec<usize>> = Vec::new();

    // put 0 to input layer
    let input_wires = circuit.get_all_inputs();
    let mut m: usize = 0;
    while m < input_wires.len()
        invariant
            m <= input_wires@.len(),
            input_wires@ == c.inputs,
            c.inputs_in_range(),
            wires@.len() == c.wire_count,
            wires@.len() == wire_count,
            forall|w: int| 0 <= w < wires@.len() ==> (#[trigger] wires@[w]).value is None,
            forall|w: int|
                0 <= w < wires@.len() ==> (#[trigger] wires@[w]).layer == if c.inputs.subrange(
                    0,
                    m as int,
                ).contains(WireId(w as usize)) {
                    Some(0usize)
                } else {
                    None
                },
        decreases input_wires@.len() - m,
    {
        let input = input_wires[m];
        let ghost before = c.inputs.subrange(0, m as int);
        let ghost after = c.inputs.subrange(0, m + 1);
        wires[input.0].layer = Some(0);
        proof {
            assert forall|w: int| 0 <= w < wires@.len() implies (#[trigger] wires@[w]).layer == if after.contains(
                WireId(w as usize),
            ) {
                Some(0usize)
            } else {
                None
            } by {
                let wire = WireId(w as usize);
                assert(after[m as int] == input);
                if before.contains(wire) {
                    let j = choose|j: int| 0 <= j < before.len() && before[j] == wire;
                    assert(after[j] == wire);
                }
                if after.contains(wire) && wire != input {
                    let j = choose|j: int| 0 <= j < after.len() && after[j] == wire;
                    assert(before[j] == wire);
                }
            }
        }
        m += 1;
    }

    let gates = circuit.get_all_gates();
    let ghost mut done: Set<int> = Set::empty();
    let ghost mut round: int = 1;
    let ghost mut ts: Seq<nat> = Seq::new(c.wire_count, |w: int| 0nat);
    proof {
        assert(gates@.len() == gates.len() <= usize::MAX);
        assert(c.inputs.subrange(0, m as int) == c.inputs);
        lemma_partial_start(c, layers(wires@));
        lemma_timed_start(c, layers(wires@), ts);
        assert(contents(gate_layers@) == Seq::<Seq<usize>>::empty());
    }

    // scan the gates until every wire has a layer or a scan gives none
    let mut pending = !all_labelled(&wires);
    while pending
        invariant
            c == circuit@,
            c.layerable(),
            gates@ == c.gates,
            gates@.len() <= usize::MAX,
            wires@.len() == c.wire_count,
            forall|w: int| 0 <= w < wires@.len() ==> (#[trigger] wires@[w]).value is None,
            partial(c, layers(wires@), contents(gate_layers@), done),
            timed(c, layers(wires@), ts, contents(gate_layers@), round, 0),
            done.len() <= c.gates.len(),
            !pending ==> settled(c, layers(wires@), c.gates.len() as int) || forall|w: int|
                0 <= w < wires@.len() ==> (#[trigger] wires@[w]).layer is Some,
        decreases c.gates.len() - done.len(), pending as int,
    {
        let mut progress = false;
        let ghost start = done;
        let mut i: usize = 0;
        while i < gates.len()
            invariant
                i <= gates@.len(),
                c == circuit@,
                c.layerable(),
                gates@ == c.gates,
                gates@.len() <= usize::MAX,
                wires@.len() == c.wire_count,
                forall|w: int| 0 <= w < wires@.len() ==> (#[trigger] wires@[w]).value is None,
                partial(c, layers(wires@), contents(gate_layers@), done),
                timed(c, layers(wires@), ts, contents(gate_layers@), round, i as int),
                done.len() <= c.gates.len(),
                start.len() <= done.len(),
                progress ==> start.len() < done.len(),
                !progress ==> settled(c, layers(wires@), i as int),
            decreases gates@.len() - i,
        {
            let wire_id = gates[i].get_output();
            let wire = wires[wire_id.0];
            let ghost seen = layers(wires@);
            let ghost held = contents(gate_layers@);

            if !wire.layer.is_some() {
                // check if the two input wires of this gate have a layer
                let (x, y) = gates[i].get_inputs();
                let x_layer = wires[x.0].layer;
                let y_layer = wires[y.0].layer;
                if x_layer.is_some() && y_layer.is_some() {
                    let x_layer = x_layer.unwrap();
                    let y_layer = y_layer.unwrap();
                    let current_layer = if x_layer >= y_layer {
                        x_layer
                    } else {
                        y_layer
                    };
                    let ghost ls = layers(wires@);
                    let ghost bs = contents(gate_layers@);
                    proof {
                        lemma_partial_step(c, ls, bs, done, i as int);
                        lemma_timed_label(c, ls, ts, bs, done, round, i as int);
                    }
                    let layer = current_layer + 1;
                    wires[wire_id.0].layer = Some(layer);

                    // the buckets grow on demand, up to the bucket of this layer
                    while gate_layers.len() <= layer
                        invariant
                            bs.len() <= gate_layers@.len(),
                            gate_layers@.len() <= bs.len() || gate_layers@.len() <= layer + 1,
                            forall|k: int| 0 <= k < bs.len() ==> (#[trigger] gate_layers@[k])@ == bs[k],
                            forall|k: int|
                                bs.len() <= k < gate_layers@.len() ==> (#[trigger] gate_layers@[k])@.len() == 0,
                        decreases layer + 1 - gate_layers@.len(),
                    {
                        gate_layers.push(Vec::new());
                    }
                    gate_layers[layer].push(i);
                    proof {
                        done = done.insert(i as int);
                        ts = ts.update(wire_id.0 as int, round as nat);
                        assert(layers(wires@) =~= ls.update(wire_id.0 as int, Some(layer)));
                        let now = contents(gate_layers@);
                        let wide = grown(bs, layer as int);
                        assert(now.len() == wide.len());
                        assert forall|k: int| 0 <= k < now.len() implies #[trigger] now[k] =~= put(
                            bs,
                            layer as int,
                            i,
                        )[k] by {
                            if k < bs.len() {
                                assert(wide[k] == bs[k]);
                            } else {
                                assert(wide[k].len() == 0);
                            }
                        }
                        assert(now =~= put(bs, layer as int, i));
                    }
                    progress = true;
                } else {
                    proof {
                        lemma_timed_skip(c, seen, ts, held, round, i as int);
                    }
                }
            } else {
                proof {
                    lemma_timed_skip(c, seen, ts, held, round, i as int);
                }
            }
            i += 1;
        }
        proof {
            lemma_timed_next(c, layers(wires@), ts, contents(gate_layers@), round);
            round = round + 1;
        }
        pending = progress && !all_labelled(&wires);
    }
    proof {
        lemma_partial_end(c, wires@, gate_layers@, done);
        lemma_timed_end(c, wires@, ts, gate_layers@, done, round, 0);
    }
    (gate_layers, wires)
}

/// The wire has its value once the input values were handed out, the
/// buckets below `k` were worked off, and the first `j` gates of bucket `k`
/// too.
spec fn ready(c: CircuitView, buckets: Seq<Vec<usize>>, wire: WireId, k: int, j: int) -> bool {
    layer_of(c, wire) matches Some(n) && (n == 0 || n < k || (n == k && exists|i: int|
        0 <= i < j && i < buckets[k]@.len() && c.gates[#[trigger] buckets[k]@[i] as int].output() == wire))
}

/// Every wire that is ready carries a value: the one that the circuit
/// gives it, where the ring's operations compute what they specify.
spec fn valued<T: Ring>(
    c: CircuitView,
    values: Seq<T>,
    buckets: Seq<Vec<usize>>,
    wires: Seq<Wire<T>>,
    k: int,
    j: int,
) -> bool {
    forall|w: int|
        0 <= w < wires.len() && ready(c, buckets, WireId(w as usize), k, j) ==> (#[trigger] wires[w]).value is Some
            && (lawful::<T>() ==> wires[w].value == value_of(c, values, WireId(w as usize)))
}

/// What the wires carry after the first `upto` input values were handed
/// out: an input wire marked among them carries the value of its last mark,
/// any other wire none.
spec fn seeded<T: Ring>(inputs: Seq<WireId>, values: Seq<T>, wire: WireId, upto: int) -> Option<T> {
    let place = last_mark(inputs, wire, upto);
    if place >= 0 {
        Some(values[place])
    } else {
        None
    }
}

/// With all input values handed out, the wires of layer 0 carry their
/// values.
proof fn lemma_valued_start<T: Ring>(c: CircuitView, values: Seq<T>, buckets: Seq<Vec<usize>>, wires: Seq<Wire<T>>)
    requires
        wires.len() == c.wire_count <= usize::MAX,
        forall|w: int|
            0 <= w < wires.len() ==> (#[trigger] wires[w]).value == seeded(
                c.inputs,
                values,
                WireId(w as usize),
                c.inputs.len() as int,
            ),
    ensures
        valued(c, values, buckets, wires, 0, 0),
{
    assert forall|w: int| 0 <= w < wires.len() && ready(c, buckets, WireId(w as usize), 0, 0) implies (
    #[trigger] wires[w]).value is Some && (lawful::<T>() ==> wires[w].value == value_of(
        c,
        values,
        WireId(w as usize),
    )) by {
        let wire = WireId(w as usize);
        lemma_layer_source(c, wire);
        lemma_last_mark(c.inputs, wire, c.inputs.len() as int);
        assert(c.inputs.subrange(0, c.inputs.len() as int) == c.inputs);
    }
}

/// Working off one gate of bucket `k` makes its output wire ready and
/// leaves the other wires as they were.
proof fn lemma_valued_step<T: Ring>(
    c: CircuitView,
    values: Seq<T>,
    buckets: Seq<Vec<usize>>,
    before: Seq<Wire<T>>,
    after: Seq<Wire<T>>,
    k: int,
    j: int,
)
    requires
        c.layerable(),
        c.wire_count <= usize::MAX,
        bucketed(c, buckets),
        layered(c, before),
        0 <= k < buckets.len(),
        0 <= j < buckets[k]@.len(),
        valued(c, values, buckets, before, k, j),
        after.len() == before.len(),
        ({
            let gate = c.gates[buckets[k]@[j] as int];
            let out = gate.output().0 as int;
            &&& forall|w: int| 0 <= w < before.len() && w != out ==> after[w] == before[w]
            &&& after[out].layer == before[out].layer
            &&& after[out].value is Some
            &&& lawful::<T>() ==> after[out].value == combine_some(
                gate.kind(),
                before[gate.left().0 as int].value,
                before[gate.right().0 as int].value,
            )
        }),
    ensures
        valued(c, values, buckets, after, k, j + 1),
        layered(c, after),
{
    let g = buckets[k]@[j] as int;
    let gate = c.gates[g];
    let out = gate.output().0 as int;
    lemma_gate_layer(c, g);
    lemma_gate_value(c, values, g);
    assert(ready(c, buckets, gate.left(), k, j));
    assert(ready(c, buckets, gate.right(), k, j));
    let _ = (before[gate.left().0 as int], before[gate.right().0 as int]);
    assert forall|w: int| 0 <= w < after.len() && ready(c, buckets, WireId(w as usize), k, j + 1) implies (
    #[trigger] after[w]).value is Some && (lawful::<T>() ==> after[w].value == value_of(
        c,
        values,
        WireId(w as usize),
    )) by {
        let wire = WireId(w as usize);
        if w != out {
            assert(after[w] == before[w]);
            let n = layer_of(c, wire)->0;
            if n == k && n != 0 {
                let i = choose|i: int|
                    0 <= i < j + 1 && i < buckets[k]@.len() && c.gates[#[trigger] buckets[k]@[i] as int].output()
                        == wire;
                assert(i < j);
            }
            assert(ready(c, buckets, wire, k, j));
        }
    }
    assert forall|w: int| 0 <= w < after.len() implies as_depth((#[trigger] after[w]).layer) == layer_of(
        c,
        WireId(w as usize),
    ) by {
        let _ = before[w];
    }
}

/// With a bucket worked off, the wires of its layer are ready for the
/// next.
proof fn lemma_valued_next<T: Ring>(
    c: CircuitView,
    values: Seq<T>,
    buckets: Seq<Vec<usize>>,
    wires: Seq<Wire<T>>,
    k: int,
)
    requires
        c.layerable(),
        c.wire_count <= usize::MAX,
        c.gates.len() <= usize::MAX,
        bucketed(c, buckets),
        0 <= k < buckets.len(),
        valued(c, values, buckets, wires, k, buckets[k]@.len() as int),
    ensures
        valued(c, values, buckets, wires, k + 1, 0),
{
    assert forall|w: int| 0 <= w < wires.len() && ready(c, buckets, WireId(w as usize), k + 1, 0) implies (
    #[trigger] wires[w]).value is Some && (lawful::<T>() ==> wires[w].value == value_of(
        c,
        values,
        WireId(w as usize),
    )) by {
        let wire = WireId(w as usize);
        let n = layer_of(c, wire)->0;
        if n == k && n != 0 {
            lemma_layer_source(c, wire);
            let g = producer(c, wire);
            let _ = c.gates[g];
            let i = choose|i: int| 0 <= i < buckets[k]@.len() && buckets[k]@[i] == g as usize;
            assert(c.gates[buckets[k]@[i] as int].output() == wire);
        }
        assert(ready(c, buckets, wire, k, buckets[k]@.len() as int));
    }
}

/// With all buckets worked off, every wire that has a layer is ready.
proof fn lemma_valued_end<T: Ring>(
    c: CircuitView,
    values: Seq<T>,
    buckets: Seq<Vec<usize>>,
    wires: Seq<Wire<T>>,
)
    requires
        c.layerable(),
        c.wire_count <= usize::MAX,
        c.gates.len() <= usize::MAX,
        bucketed(c, buckets),
        layered(c, wires),
        valued(c, values, buckets, wires, buckets.len() as int, 0),
    ensures
        forall|w: int|
            0 <= w < wires.len() && (#[trigger] wires[w]).layer is Some ==> wires[w].value is Some && (lawful::<
                T,
            >() ==> wires[w].value == value_of(c, values, WireId(w as usize))),
{
    assert forall|w: int| 0 <= w < wires.len() && (#[trigger] wires[w]).layer is Some implies wires[w].value is Some
        && (lawful::<T>() ==> wires[w].value == value_of(c, values, WireId(w as usize))) by {
        let wire = WireId(w as usize);
        lemma_layer_source(c, wire);
        if !c.is_input(wire) {
            let _ = c.gates[producer(c, wire)];
        }
        assert(ready(c, buckets, wire, buckets.len() as int, 0));
    }
}

/// The values that the circuit gives its output wires, in the order in
/// which the wires were marked.
pub open spec fn output_values<T: Ring>(c: CircuitView, values: Seq<T>) -> Seq<T> {
    Seq::new(c.outputs.len(), |i: int| value_of(c, values, c.outputs[i])->0)
}

/// What an evaluation of the circuit on the given input values returns.
///
/// It succeeds exactly when every wire of the circuit has a layer, and
/// fails with `EmptyWire` otherwise. On success there is one value for each
/// output mark. The values are those that the circuit gives its output
/// wires, provided that `+` and `*` of `T` compute what they specify.
pub open spec fn is_outcome<T: Ring>(c: CircuitView, values: Seq<T>, res: Result<Vec<T>, EvalLocalError>) -> bool {
    match res {
        Ok(out) => {
            &&& fully_layered(c)
            &&& out@.len() == c.outputs.len()
            &&& lawful::<T>() ==> out@ == output_values(c, values)
        },
        Err(e) => !fully_layered(c) && e == EvalLocalError::EmptyWire,
    }
}

/// Evaluating a circuit twice on the same input values gives the same
/// result, where `+` and `*` of `T` compute what they specify: both
/// evaluations fail, or both succeed with the same values.
pub proof fn lemma_eval_repeats<T: Ring>(
    c: CircuitView,
    values: Seq<T>,
    first: Result<Vec<T>, EvalLocalError>,
    second: Result<Vec<T>, EvalLocalError>,
)
    requires
        lawful::<T>(),
        is_outcome(c, values, first),
        is_outcome(c, values, second),
    ensures
        match (first, second) {
            (Ok(a), Ok(b)) => a@ == b@,
            (Err(e), Err(f)) => e == f,
            _ => false,
        },
{
}

/// Where no gate writes to an input wire, layers rise along the gates: the
/// layer of a gate's output wire, where it has one, is greater than the
/// layers of both its input wires, which have one too.
pub proof fn lemma_layers_rise<T: Ring>(c: CircuitView, wires: Seq<Wire<T>>, g: int)
    requires
        c.layerable(),
        c.inputs_are_sources(),
        layered(c, wires),
        0 <= g < c.gates.len(),
        wires[c.gates[g].output().0 as int].layer is Some,
    ensures
        wires[c.gates[g].left().0 as int].layer matches Some(x) && wires[c.gates[g].output().0 as int].layer->0
            > x,
        wires[c.gates[g].right().0 as int].layer matches Some(y) && wires[c.gates[g].output().0 as int].layer->0
            > y,
{
    let gate = c.gates[g];
    let _ = (wires[gate.output().0 as int], wires[gate.left().0 as int], wires[gate.right().0 as int]);
    lemma_gate_layer(c, g);
}

/// The gates of one bucket do not depend on each other: none of them reads
/// the wire that another one writes, or its own. They can be worked off in
/// any order, or all at once.
pub proof fn lemma_bucket_independent(c: CircuitView, buckets: Seq<Vec<usize>>, k: int, i: int, j: int)
    requires
        c.layerable(),
        bucketed(c, buckets),
        0 <= k < buckets.len(),
        0 <= i < buckets[k]@.len(),
        0 <= j < buckets[k]@.len(),
    ensures
        !c.gates[buckets[k]@[j] as int].reads(c.gates[buckets[k]@[i] as int].output()),
{
    let g = buckets[k]@[i] as int;
    let h = buckets[k]@[j] as int;
    lemma_gate_layer(c, h);
}

/// Evaluates the circuit on the given input values, without any garbling
/// or networking. The i-th value belongs to the i-th wire that was marked
/// as an input, and the i-th value of the result to the i-th wire that was
/// marked as an output.
///
/// The evaluation succeeds exactly when every wire of the circuit has a
/// layer. The values of the result are then those that the circuit gives
/// its output wires, provided that `+` and `*` of `T` compute what their
/// specifications say.
pub fn eval_local<T: Ring>(circuit: &Circuit, input_values: Vec<T>) -> (res: Result<Vec<T>, EvalLocalError>)
    requires
        circuit@.well_formed(),
        input_values@.len() >= circuit@.inputs.len(),
        closed::<T>(),
    ensures
        is_outcome(circuit@, input_values@, res),
{
    let ghost c = circuit@;
    let ghost values = input_values@;
    // put layer number to all wires and gates
    let (gate_layers, mut wires) = label_wires_with_layer::<T>(circuit);

    let all_gates = circuit.get_all_gates();
    let all_inputs = circuit.get_all_inputs();
    proof {
        assert(wires@.len() == wires.len() <= usize::MAX);
        assert(all_gates@.len() == all_gates.len() <= usize::MAX);
    }

    // put value to input wires
    let mut i: usize = 0;
    while i < all_inputs.len()
        invariant
            i <= all_inputs@.len(),
            all_inputs@ == c.inputs,
            c.inputs_in_range(),
            values == input_values@,
            values.len() >= c.inputs.len(),
            wires@.len() == c.wire_count <= usize::MAX,
            layered(c, wires@),
            forall|w: int|
                0 <= w < wires@.len() ==> (#[trigger] wires@[w]).value == seeded(
                    c.inputs,
                    values,
                    WireId(w as usize),
                    i as int,
                ),
        decreases all_inputs@.len() - i,
    {
        let wire_id = all_inputs[i];
        let ghost before = wires@;
        wires[wire_id.0].value = Some(input_values[i]);
        proof {
            assert forall|w: int| 0 <= w < wires@.len() implies as_depth((#[trigger] wires@[w]).layer) == layer_of(
                c,
                WireId(w as usize),
            ) by {
                let _ = before[w];
            }
            assert forall|w: int| 0 <= w < wires@.len() implies (#[trigger] wires@[w]).value == seeded(
                c.inputs,
                values,
                WireId(w as usize),
                i + 1,
            ) by {
                let _ = before[w];
            }
        }
        i += 1;
    }
    proof {
        lemma_valued_start(c, values, gate_layers@, wires@);
    }

    let mut current_layer: usize = 0;
    while current_layer < gate_layers.len()
        invariant
            current_layer <= gate_layers@.len(),
            c == circuit@,
            c.layerable(),
            closed::<T>(),
            all_gates@ == c.gates,
            c.gates.len() <= usize::MAX,
            wires@.len() == c.wire_count <= usize::MAX,
            bucketed(c, gate_layers@),
            layered(c, wires@),
            valued(c, values, gate_layers@, wires@, current_layer as int, 0),
        decreases gate_layers@.len() - current_layer,
    {
        let bucket = &gate_layers[current_layer];
        let mut j: usize = 0;
        while j < bucket.len()
            invariant
                j <= bucket@.len(),
                current_layer < gate_layers@.len(),
                *bucket == gate_layers@[current_layer as int],
                c == circuit@,
                c.layerable(),
                closed::<T>(),
                all_gates@ == c.gates,
                c.gates.len() <= usize::MAX,
                wires@.len() == c.wire_count <= usize::MAX,
                bucketed(c, gate_layers@),
                layered(c, wires@),
                valued(c, values, gate_layers@, wires@, current_layer as int, j as int),
            decreases bucket@.len() - j,
        {
            let gate_id = bucket[j];
            let gate = &all_gates[gate_id];
            let (in1, in2) = gate.get_inputs();
            let out = gate.get_output();
            let ghost before = wires@;
            proof {
                lemma_gate_layer(c, gate_id as int);
                assert(ready(c, gate_layers@, in1, current_layer as int, j as int));
                assert(ready(c, gate_layers@, in2, current_layer as int, j as int));
            }

            let in1 = wires[in1.0].value.unwrap();
            let in2 = wires[in2.0].value.unwrap();

            wires[out.0].value = match gate.gate_type() {
                GateType::Add => Some(in1 + in2),
                GateType::Mul => Some(in1 * in2),
            };
            proof {
                lemma_valued_step(c, values, gate_layers@, before, wires@, current_layer as int, j as int);
            }
            j += 1;
        }
        proof {
            lemma_valued_next(c, values, gate_layers@, wires@, current_layer as int);
        }
        current_layer += 1;
    }
    proof {
        lemma_valued_end(c, values, gate_layers@, wires@);
    }

    // check if all the wires are evaluated
    let mut w: usize = 0;
    while w < wires.len()
        invariant
            w <= wires@.len(),
            c == circuit@,
            wires@.len() == c.wire_count <= usize::MAX,
            layered(c, wires@),
            forall|v: int| 0 <= v < w ==> (#[trigger] wires@[v]).layer is Some && wires@[v].value is Some,
            forall|v: int| 0 <= v < wires@.len() && (#[trigger] wires@[v]).layer is Some ==> wires@[v].value is Some,
        decreases wires@.len() - w,
    {
        if !(wires[w].value.is_some() && wires[w].layer.is_some()) {
            proof {
                let v = w as int;
                assert(wires@[v].layer is None);
                assert(layer_of(c, WireId(v as usize)) is None);
            }
            return Err(EvalLocalError::EmptyWire);
        }
        w += 1;
    }
    proof {
        assert forall|v: int| 0 <= v < c.wire_count implies (#[trigger] layer_of(c, WireId(v as usize))) is Some by {
            let _ = wires@[v];
        }
    }

    let all_outputs = circuit.get_all_outputs();
    let mut result: Vec<T> = Vec::new();
    let mut o: usize = 0;
    while o < all_outputs.len()
        invariant
            o <= all_outputs@.len(),
            c == circuit@,
            values == input_values@,
            all_outputs@ == c.outputs,
            c.outputs_in_range(),
            fully_layered(c),
            wires@.len() == c.wire_count <= usize::MAX,
            result@.len() == o,
            forall|v: int|
                0 <= v < wires@.len() ==> (#[trigger] wires@[v]).value is Some && (lawful::<T>() ==> wires@[v].value
                    == value_of(c, values, WireId(v as usize))),
            lawful::<T>() ==> forall|i: int| 0 <= i < o ==> #[trigger] result@[i] == output_values(c, values)[i],
        decreases all_outputs@.len() - o,
    {
        let out = all_outputs[o];
        result.push(wires[out.0].value.unwrap());
        o += 1;
    }
    proof {
        if lawful::<T>() {
            assert(result@ =~= output_values(c, values));
        }
    }
    Ok(result)
}

} // verus!
