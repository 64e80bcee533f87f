//! Cycle detection by depth-first search over the gates of a circuit.

use crate::circuit::{Circuit, CircuitView, Gate, WireId};
use crate::graph::{
    acyclic, acyclic_from_inputs, feeds, is_seed, is_walk, lemma_re_enters, lemma_walk_join, lemma_walk_tail,
    on_cycle, re_enters, reachable, reaches,
};
use std::collections::HashSet;
use vstd::prelude::*;
use vstd::std_specs::hash::spec_hash_keys_iter;
use vstd::std_specs::iter::IteratorSpec;

verus! {

/// Every walk that starts at gate `g` visits no gate twice and stays clear
/// of the gates of `path`.
#[verifier::opaque]
spec fn clean_from(c: CircuitView, g: int, path: Seq<int>) -> bool {
    forall|p: Seq<int>|
        #[trigger] is_walk(c, p) && p[0] == g ==> p.no_duplicates() && forall|i: int|
            0 <= i < p.len() ==> !path.contains(#[trigger] p[i])
}

/// The counters mark exactly the gates of `path`.
#[verifier::opaque]
spec fn marks(visited: Seq<usize>, path: Seq<int>) -> bool {
    forall|g: int|
        0 <= g < visited.len() ==> #[trigger] visited[g] == if path.contains(g) {
            1usize
        } else {
            0usize
        }
}

/// How many of the counters are zero.
spec fn zeros(visited: Seq<usize>) -> nat
    decreases visited.len(),
{
    if visited.len() == 0 {
        0
    } else {
        zeros(visited.drop_last()) + if visited.last() == 0 {
            1nat
        } else {
            0nat
        }
    }
}

/// Raising a zero counter leaves one zero fewer.
proof fn lemma_zeros_update(visited: Seq<usize>, g: int, v: usize)
    requires
        0 <= g < visited.len(),
        visited[g] == 0,
        v != 0,
    ensures
        zeros(visited.update(g, v)) + 1 == zeros(visited),
    decreases visited.len(),
{
    let after = visited.update(g, v);
    if g == visited.len() - 1 {
        assert(after.drop_last() =~= visited.drop_last());
    } else {
        assert(after.drop_last() =~= visited.drop_last().update(g, v));
        lemma_zeros_update(visited.drop_last(), g, v);
    }
}

/// If every walk from each gate that `g` feeds is clean of `path` and `g`,
/// then every walk from `g` is clean of `path`.
proof fn lemma_clean_step(c: CircuitView, g: int, path: Seq<int>, next: Seq<usize>)
    requires
        0 <= g < c.gates.len(),
        !path.contains(g),
        forall|h: int|
            #[trigger] feeds(c, g, h) ==> exists|k: int|
                0 <= k < next.len() && #[trigger] next[k] as int == h,
        forall|k: int| 0 <= k < next.len() ==> clean_from(c, #[trigger] next[k] as int, path.push(g)),
    ensures
        clean_from(c, g, path),
{
    reveal(clean_from);
    let longer = path.push(g);
    assert(longer[path.len() as int] == g);
    assert forall|p: Seq<int>| #[trigger] is_walk(c, p) && p[0] == g implies p.no_duplicates()
        && forall|i: int| 0 <= i < p.len() ==> !path.contains(#[trigger] p[i]) by {
        if p.len() >= 2 {
            lemma_walk_tail(c, p);
            let t = p.subrange(1, p.len() as int);
            let h = p[1];
            assert(feeds(c, g, h));
            let k = choose|k: int| 0 <= k < next.len() && #[trigger] next[k] as int == h;
            assert(clean_from(c, next[k] as int, longer));
            assert(is_walk(c, t) && t[0] == h);
            assert forall|i: int| 0 <= i < p.len() implies !path.contains(#[trigger] p[i]) by {
                if i > 0 {
                    assert(p[i] == t[i - 1]);
                    if path.contains(p[i]) {
                        let j = choose|j: int| 0 <= j < path.len() && path[j] == p[i];
                        assert(longer[j] == p[i]);
                    }
                }
            }
            assert forall|i: int, j: int| 0 <= i < p.len() && 0 <= j < p.len() && i != j implies p[i]
                != p[j] by {
                if i > 0 && j > 0 {
                    assert(t[i - 1] != t[j - 1]);
                } else if i > 0 {
                    assert(p[i] == t[i - 1]);
                    assert(!longer.contains(t[i - 1]));
                } else {
                    assert(p[j] == t[j - 1]);
                    assert(!longer.contains(t[j - 1]));
                }
            }
        }
    }
}

/// Where every walk from a seed visits no gate twice, no gate that a seed
/// reaches lies on a cycle.
proof fn lemma_clean_seeds(c: CircuitView)
    requires
        forall|s: int| #[trigger] is_seed(c, s) ==> clean_from(c, s, Seq::empty()),
    ensures
        acyclic_from_inputs(c),
{
    reveal(clean_from);
    assert forall|g: int| #[trigger] reachable(c, g) implies !on_cycle(c, g) by {
        if on_cycle(c, g) {
            let s = choose|s: int| #[trigger] is_seed(c, s) && reaches(c, s, g);
            let q = choose|q: Seq<int>| #[trigger] is_walk(c, q) && q[0] == s && q.last() == g;
            let p = choose|p: Seq<int>|
                #[trigger] is_walk(c, p) && p.len() >= 2 && p[0] == g && p.last() == g;
            lemma_walk_join(c, q, p);
            let r = q + p.subrange(1, p.len() as int);
            assert(clean_from(c, s, Seq::empty()));
            assert(is_walk(c, r) && r[0] == s);
            assert(r[q.len() - 1] == g);
            assert(r[r.len() - 1] == g);
        }
    }
}

/// How one wire is connected.
#[derive(Debug)]
pub struct WireConnection {
    /// The gates that read this wire.
    pub to_ids: Vec<usize>,
    /// A gate that writes this wire, if there is one. Wires marked as
    /// inputs of a circuit have none.
    pub from_id: Option<usize>,
}

impl Default for WireConnection {
    fn default() -> (conn: WireConnection)
        ensures
            conn.to_ids@.len() == 0,
            conn.from_id is None,
    {
        WireConnection { to_ids: Vec::new(), from_id: None }
    }
}

/// Every reader listed for a wire is one of the first `n` gates and reads
/// that wire.
spec fn readers_sound(c: CircuitView, conns: Seq<WireConnection>, n: int) -> bool {
    forall|w: int, k: int|
        0 <= w < conns.len() && 0 <= k < conns[w].to_ids@.len() ==> {
            let g = #[trigger] conns[w].to_ids@[k];
            g < n && c.gates[g as int].reads(WireId(w as usize))
        }
}

/// Each of the first `n` gates is listed as a reader of both its input
/// wires.
spec fn readers_complete(c: CircuitView, conns: Seq<WireConnection>, n: int) -> bool {
    forall|g: int|
        0 <= g < n ==> {
            &&& conns[(#[trigger] c.gates[g]).left().0 as int].to_ids@.contains(g as usize)
            &&& conns[c.gates[g].right().0 as int].to_ids@.contains(g as usize)
        }
}

/// The writer recorded for a wire is the last of the first `n` gates that
/// writes it; none is recorded where none of them does.
spec fn writers_right(c: CircuitView, conns: Seq<WireConnection>, n: int) -> bool {
    forall|w: int|
        0 <= w < conns.len() ==> match (#[trigger] conns[w]).from_id {
            Some(g) => g < n && c.gates[g as int].output().0 == w && forall|h: int|
                g < h < n ==> (#[trigger] c.gates[h]).output().0 != w,
            None => forall|h: int| 0 <= h < n ==> (#[trigger] c.gates[h]).output().0 != w,
        }
}

/// The connections hold what the first `n` gates of the circuit say, and
/// nothing else.
#[verifier::opaque]
spec fn indexes(c: CircuitView, conns: Seq<WireConnection>, n: int) -> bool {
    &&& conns.len() == c.wire_count
    &&& readers_sound(c, conns, n)
    &&& readers_complete(c, conns, n)
    &&& writers_right(c, conns, n)
}

/// The readers of wire `w` after gate `n` was recorded, given its readers
/// before.
spec fn readers_after(c: CircuitView, before: Seq<usize>, w: int, n: int) -> Seq<usize> {
    let first = if c.gates[n].left().0 == w {
        before.push(n as usize)
    } else {
        before
    };
    if c.gates[n].right().0 == w {
        first.push(n as usize)
    } else {
        first
    }
}

/// How the connections change when gate `n` is recorded.
spec fn records(c: CircuitView, before: Seq<WireConnection>, after: Seq<WireConnection>, n: int) -> bool {
    &&& after.len() == before.len()
    &&& forall|w: int|
        0 <= w < before.len() ==> (#[trigger] after[w]).to_ids@ == readers_after(
            c,
            before[w].to_ids@,
            w,
            n,
        )
    &&& forall|w: int|
        0 <= w < before.len() ==> (#[trigger] after[w]).from_id == if c.gates[n].output().0 == w {
            Some(n as usize)
        } else {
            before[w].from_id
        }
}

/// Recording a gate keeps the listed readers sound.
proof fn lemma_step_sound(c: CircuitView, before: Seq<WireConnection>, after: Seq<WireConnection>, n: int)
    requires
        0 <= n < c.gates.len(),
        n <= usize::MAX,
        readers_sound(c, before, n),
        records(c, before, after, n),
    ensures
        readers_sound(c, after, n + 1),
{
    assert forall|w: int, k: int| 0 <= w < after.len() && 0 <= k < after[w].to_ids@.len() implies {
        let g = #[trigger] after[w].to_ids@[k];
        g < n + 1 && c.gates[g as int].reads(WireId(w as usize))
    } by {
        let old_ids = before[w].to_ids@;
        assert(after[w].to_ids@ == readers_after(c, old_ids, w, n));
        if k < old_ids.len() {
            assert(after[w].to_ids@[k] == old_ids[k]);
        } else {
            assert(after[w].to_ids@[k] == n as usize);
        }
    }
}

/// Recording a gate lists it as a reader of both its input wires.
proof fn lemma_step_complete(
    c: CircuitView,
    before: Seq<WireConnection>,
    after: Seq<WireConnection>,
    n: int,
)
    requires
        0 <= n < c.gates.len(),
        n <= usize::MAX,
        c.gates_in_range(),
        before.len() == c.wire_count,
        readers_complete(c, before, n),
        records(c, before, after, n),
    ensures
        readers_complete(c, after, n + 1),
{
    assert forall|g: int| 0 <= g < n + 1 implies {
        &&& after[(#[trigger] c.gates[g]).left().0 as int].to_ids@.contains(g as usize)
        &&& after[c.gates[g].right().0 as int].to_ids@.contains(g as usize)
    } by {
        let l = c.gates[g].left().0 as int;
        let r = c.gates[g].right().0 as int;
        assert(after[l].to_ids@ == readers_after(c, before[l].to_ids@, l, n));
        assert(after[r].to_ids@ == readers_after(c, before[r].to_ids@, r, n));
        if g < n {
            let kl = choose|k: int| 0 <= k < before[l].to_ids@.len() && before[l].to_ids@[k] == g as usize;
            assert(after[l].to_ids@[kl] == g as usize);
            let kr = choose|k: int| 0 <= k < before[r].to_ids@.len() && before[r].to_ids@[k] == g as usize;
            assert(after[r].to_ids@[kr] == g as usize);
        } else {
            let kl = before[l].to_ids@.len() as int;
            assert(after[l].to_ids@[kl] == g as usize);
            let kr = after[r].to_ids@.len() - 1;
            assert(after[r].to_ids@[kr] == g as usize);
        }
    }
}

/// Recording a gate makes it the writer of its output wire.
proof fn lemma_step_writers(
    c: CircuitView,
    before: Seq<WireConnection>,
    after: Seq<WireConnection>,
    n: int,
)
    requires
        0 <= n < c.gates.len(),
        n <= usize::MAX,
        writers_right(c, before, n),
        records(c, before, after, n),
    ensures
        writers_right(c, after, n + 1),
{
    assert forall|w: int| 0 <= w < after.len() implies match (#[trigger] after[w]).from_id {
        Some(g) => g < n + 1 && c.gates[g as int].output().0 == w && forall|h: int|
            g < h < n + 1 ==> (#[trigger] c.gates[h]).output().0 != w,
        None => forall|h: int| 0 <= h < n + 1 ==> (#[trigger] c.gates[h]).output().0 != w,
    } by {
        let _ = before[w];
    }
}

/// Scans the gates and records, for each wire, the gates that read it and
/// which gate writes it.
fn connect_wires(circuit: &Circuit) -> (conns: Vec<WireConnection>)
    requires
        circuit@.numbered(),
        circuit@.gates_in_range(),
    ensures
        indexes(circuit@, conns@, circuit@.gates.len() as int),
{
    let wire_count = circuit.get_wire_count();
    let mut wire_connections: Vec<WireConnection> = Vec::new();
    let mut w: usize = 0;
    while w < wire_count
        invariant
            w <= wire_count,
            wire_count == circuit@.wire_count,
            wire_connections@.len() == w,
            forall|v: int|
                0 <= v < w ==> (#[trigger] wire_connections@[v]).to_ids@.len() == 0
                    && wire_connections@[v].from_id is None,
        decreases wire_count - w,
    {
        wire_connections.push(WireConnection::default());
        w += 1;
    }

    let gates = circuit.get_all_gates();
    let mut n: usize = 0;
    proof {
        reveal(indexes);
    }
    while n < gates.len()
        invariant
            n <= gates.len(),
            gates@ == circuit@.gates,
            circuit@.numbered(),
            circuit@.gates_in_range(),
            wire_connections@.len() == circuit@.wire_count,
            indexes(circuit@, wire_connections@, n as int),
        decreases gates.len() - n,
    {
        let gate = &gates[n];
        let id = gate.get_id();
        let (x, y) = gate.get_inputs();
        let out = gate.get_output();
        let x: usize = x.into();
        let y: usize = y.into();
        let out: usize = out.into();
        let ghost before = wire_connections@;

        wire_connections[x].to_ids.push(id);
        wire_connections[y].to_ids.push(id);
        wire_connections[out].from_id = Some(id);
        proof {
            reveal(indexes);
            let after = wire_connections@;
            assert(records(circuit@, before, after, n as int));
            lemma_step_sound(circuit@, before, after, n as int);
            lemma_step_complete(circuit@, before, after, n as int);
            lemma_step_writers(circuit@, before, after, n as int);
        }
        n += 1;
    }
    wire_connections
}

/// What a complete index says of the gates that gate `g` feeds: they are
/// the readers listed for its output wire.
proof fn lemma_readers(c: CircuitView, conns: Seq<WireConnection>, g: int)
    requires
        indexes(c, conns, c.gates.len() as int),
        c.gates_in_range(),
        0 <= g < c.gates.len() <= usize::MAX,
    ensures
        c.gates[g].output().0 < conns.len(),
        forall|j: int|
            0 <= j < conns[c.gates[g].output().0 as int].to_ids@.len() ==> feeds(
                c,
                g,
                #[trigger] conns[c.gates[g].output().0 as int].to_ids@[j] as int,
            ),
        forall|h: int|
            #[trigger] feeds(c, g, h) ==> exists|j: int|
                0 <= j < conns[c.gates[g].output().0 as int].to_ids@.len()
                    && #[trigger] conns[c.gates[g].output().0 as int].to_ids@[j] as int == h,
{
    reveal(indexes);
    let out = c.gates[g].output().0 as int;
    let ids = conns[out].to_ids@;
    assert forall|h: int| #[trigger] feeds(c, g, h) implies exists|j: int|
        0 <= j < ids.len() && #[trigger] ids[j] as int == h by {
        let reader = c.gates[h];
        assert(conns[reader.left().0 as int].to_ids@.contains(h as usize));
        assert(conns[reader.right().0 as int].to_ids@.contains(h as usize));
        let j = choose|j: int| 0 <= j < ids.len() && ids[j] == h as usize;
        assert(ids[j] as int == h);
    }
}

/// Where a walk ends at a gate that feeds `g`, and the counter of `g` is
/// raised, `g` lies on a cycle and can be reached from the walk's start.
proof fn lemma_back_edge(c: CircuitView, path: Seq<int>, g: int, wire: WireId, visited: Seq<usize>)
    requires
        0 <= g < visited.len(),
        marks(visited, path),
        visited[g] != 0,
        path.len() > 0 ==> is_walk(c, path) && feeds(c, path.last(), g) && c.gates[path.last()].output()
            == wire,
    ensures
        re_enters(c, g, wire),
        reaches(c, start_of(path, g), g),
{
    reveal(marks);
    let i = choose|i: int| 0 <= i < path.len() && path[i] == g;
    let cycle = path.subrange(i, path.len() as int).push(g);
    assert forall|j: int| 0 <= j < cycle.len() - 1 implies feeds(c, #[trigger] cycle[j], cycle[j + 1]) by {
        if j < cycle.len() - 2 {
            assert(feeds(c, path[i + j], path[i + j + 1]));
        }
    }
    assert(is_walk(c, cycle));
    assert(cycle[cycle.len() - 2] == path.last());
    let lead = path.subrange(0, i + 1);
    assert forall|j: int| 0 <= j < lead.len() - 1 implies feeds(c, #[trigger] lead[j], lead[j + 1]) by {
        assert(feeds(c, path[j], path[j + 1]));
    }
    assert(is_walk(c, lead) && lead[0] == path[0] && lead.last() == g);
}

/// Where the walk `path`, continued by gate `g`, starts.
spec fn start_of(path: Seq<int>, g: int) -> int {
    if path.len() > 0 {
        path[0]
    } else {
        g
    }
}

/// Taking a gate that is not on `path` onto it keeps the walk a walk, keeps
/// it free of repeats, and is what raising that gate's counter marks.
proof fn lemma_extend_path(c: CircuitView, path: Seq<int>, g: int, visited: Seq<usize>)
    requires
        0 <= g < c.gates.len(),
        visited.len() == c.gates.len(),
        marks(visited, path),
        visited[g] == 0,
        path.no_duplicates(),
        path.len() > 0 ==> is_walk(c, path) && feeds(c, path.last(), g),
    ensures
        is_walk(c, path.push(g)),
        path.push(g).no_duplicates(),
        marks(visited.update(g, 1), path.push(g)),
        !path.contains(g),
        zeros(visited.update(g, 1)) < zeros(visited),
        start_of(path.push(g), g) == start_of(path, g),
{
    reveal(marks);
    let longer = path.push(g);
    lemma_zeros_update(visited, g, 1);
    assert forall|i: int| 0 <= i < longer.len() - 1 implies feeds(c, #[trigger] longer[i], longer[i + 1]) by {
        if i < path.len() - 1 {
            assert(feeds(c, path[i], path[i + 1]));
        }
    }
    assert forall|h: int| 0 <= h < visited.len() implies #[trigger] visited.update(g, 1)[h] == if longer.contains(
        h,
    ) {
        1usize
    } else {
        0usize
    } by {
        if h == g {
            assert(longer[path.len() as int] == g);
        } else if path.contains(h) {
            let j = choose|j: int| 0 <= j < path.len() && path[j] == h;
            assert(longer[j] == h);
        } else if longer.contains(h) {
            let j = choose|j: int| 0 <= j < longer.len() && longer[j] == h;
            assert(path[j] == h);
        }
    }
}

/// Depth-first search from gate `gate_id`, entered through wire `wire_id`.
/// `gate_visited` counts, for each gate, whether it is on the walk that led
/// here. Reaching a gate that is on that walk closes a cycle, which is
/// reported at once. A gate leaves the walk when all that it feeds has been
/// searched, so a gate that is reached twice along different walks is no
/// cycle.
fn dfs(
    gate_id: usize,
    wire_id: usize,
    gates: &[Gate],
    gate_visited: &mut Vec<usize>,
    wire_connections: &Vec<WireConnection>,
    Ghost(c): Ghost<CircuitView>,
    Ghost(path): Ghost<Seq<int>>,
) -> (found: Option<(usize, usize)>)
    requires
        gates@ == c.gates,
        c.numbered(),
        c.gates_in_range(),
        indexes(c, wire_connections@, c.gates.len() as int),
        gate_id < gates@.len(),
        old(gate_visited)@.len() == gates@.len(),
        marks(old(gate_visited)@, path),
        path.no_duplicates(),
        path.len() > 0 ==> is_walk(c, path) && feeds(c, path.last(), gate_id as int)
            && c.gates[path.last()].output().0 == wire_id,
    ensures
        found is None ==> final(gate_visited)@ == old(gate_visited)@ && clean_from(
            c,
            gate_id as int,
            path,
        ),
        found matches Some((g, w)) ==> g < gates@.len() && re_enters(c, g as int, WireId(w)) && reaches(
            c,
            start_of(path, gate_id as int),
            g as int,
        ),
    decreases zeros(old(gate_visited)@),
{
    let gate = &gates[gate_id];
    let id = gate.get_id();
    let out: usize = gate.get_output().into();
    if gate_visited[id] != 0 {
        // this gate is on the walk that led here: the walk closes a cycle
        proof {
            lemma_back_edge(c, path, gate_id as int, WireId(wire_id), gate_visited@);
        }
        return Some((gate_id, wire_id));
    }
    proof {
        lemma_extend_path(c, path, gate_id as int, gate_visited@);
        lemma_readers(c, wire_connections@, gate_id as int);
    }
    let ghost longer = path.push(gate_id as int);
    let ghost before = gate_visited@;

    gate_visited[id] += 1;

    // the wire that leaves this gate
    let wire = &wire_connections[out];

    let mut k: usize = 0;
    while k < wire.to_ids.len()
        invariant
            k <= wire.to_ids@.len(),
            gates@ == c.gates,
            c.numbered(),
            c.gates_in_range(),
            indexes(c, wire_connections@, c.gates.len() as int),
            gate_id < gates@.len(),
            gate_visited@ == before.update(gate_id as int, 1),
            before.len() == gates@.len(),
            marks(gate_visited@, longer),
            longer.no_duplicates(),
            longer.len() > 0,
            is_walk(c, longer),
            longer.last() == gate_id,
            c.gates[gate_id as int].output().0 == out,
            start_of(longer, gate_id as int) == start_of(path, gate_id as int),
            zeros(gate_visited@) < zeros(old(gate_visited)@),
            forall|j: int|
                0 <= j < wire.to_ids@.len() ==> feeds(c, gate_id as int, #[trigger] wire.to_ids@[j] as int),
            forall|j: int| 0 <= j < k ==> clean_from(c, #[trigger] wire.to_ids@[j] as int, longer),
        decreases wire.to_ids@.len() - k,
    {
        let next = wire.to_ids[k];
        assert(feeds(c, gate_id as int, next as int));
        assert(start_of(longer, next as int) == start_of(longer, gate_id as int));
        if let Some(pair) = dfs(next, out, gates, gate_visited, wire_connections, Ghost(c), Ghost(longer)) {
            return Some(pair);
        }
        k += 1;
    }

    gate_visited[id] -= 1;
    proof {
        assert(gate_visited@ =~= before);
        lemma_clean_step(c, gate_id as int, path, wire.to_ids@);
    }
    None
}

/// What a complete index says of the readers listed for wire `w`: they are
/// the gates that read it.
proof fn lemma_wire_readers(c: CircuitView, conns: Seq<WireConnection>, w: int)
    requires
        indexes(c, conns, c.gates.len() as int),
        c.gates.len() <= usize::MAX,
        c.wire_count <= usize::MAX,
        0 <= w < conns.len(),
    ensures
        forall|j: int|
            0 <= j < conns[w].to_ids@.len() ==> {
                let g = #[trigger] conns[w].to_ids@[j];
                g < c.gates.len() && c.gates[g as int].reads(WireId(w as usize))
            },
        forall|g: int|
            0 <= g < c.gates.len() && (#[trigger] c.gates[g]).reads(WireId(w as usize)) ==> conns[w].to_ids@.contains(
                g as usize,
            ),
{
    reveal(indexes);
}

/// Searches the circuit for a cycle. The search starts at every gate that
/// reads an input wire and follows the wires from gate to gate.
///
/// The answer is `None` exactly when no gate that can be reached from an
/// input lies on a cycle. Otherwise it names a gate that can be reached
/// from an input and lies on a cycle, together with the wire through which
/// the cycle enters that gate again.
pub fn detect_cycle(circuit: &Circuit) -> (found: Option<(usize, WireId)>)
    requires
        circuit@.numbered(),
        circuit@.gates_in_range(),
    ensures
        found is None <==> acyclic_from_inputs(circuit@),
        acyclic(circuit@) ==> found is None,
        (exists|g: int| reachable(circuit@, g) && #[trigger] on_cycle(circuit@, g)) ==> found is Some,
        found matches Some((g, w)) ==> {
            &&& g < circuit@.gates.len()
            &&& reachable(circuit@, g as int)
            &&& on_cycle(circuit@, g as int)
            &&& re_enters(circuit@, g as int, w)
            &&& circuit@.gates[g as int].reads(w)
        },
{
    broadcast use vstd::std_specs::hash::group_hash_axioms;

    let ghost c = circuit@;
    // scan all the gates and store how gates are connected
    let wire_connections = connect_wires(circuit);

    proof {
        reveal(indexes);
        assert(wire_connections.len() == c.wire_count);
    }
    let gate_count = circuit.get_gate_count();
    let mut gate_visited: Vec<usize> = Vec::new();
    let mut n: usize = 0;
    while n < gate_count
        invariant
            n <= gate_count,
            gate_visited@.len() == n,
            forall|g: int| 0 <= g < n ==> #[trigger] gate_visited@[g] == 0,
        decreases gate_count - n,
    {
        gate_visited.push(0);
        n += 1;
    }
    let gates = circuit.get_all_gates();

    // the gates that read an input wire
    let circuit_inputs = circuit.get_all_inputs();
    let mut input_gates = HashSet::<usize>::new();
    let mut i: usize = 0;
    while i < circuit_inputs.len()
        invariant
            i <= circuit_inputs@.len(),
            c == circuit@,
            circuit_inputs@ == c.inputs,
            c.gates.len() <= usize::MAX,
            c.wire_count <= usize::MAX,
            c.gates_in_range(),
            wire_connections@.len() == c.wire_count,
            indexes(c, wire_connections@, c.gates.len() as int),
            forall|g: usize| input_gates@.contains(g) ==> #[trigger] is_seed(c, g as int),
            forall|j: int, g: int|
                0 <= j < i && 0 <= g < c.gates.len() && (#[trigger] c.gates[g]).reads(
                    #[trigger] c.inputs[j],
                ) ==> input_gates@.contains(g as usize),
        decreases circuit_inputs@.len() - i,
    {
        let id: usize = circuit_inputs[i].into();
        if id < wire_connections.len() {
            let conn = &wire_connections[id];
            proof {
                lemma_wire_readers(c, wire_connections@, id as int);
            }
            let mut k: usize = 0;
            while k < conn.to_ids.len()
                invariant
                    k <= conn.to_ids@.len(),
                    i < circuit_inputs@.len(),
                    circuit_inputs@ == c.inputs,
                    c.gates.len() <= usize::MAX,
                    c.inputs[i as int] == WireId(id),
                    forall|j: int|
                        0 <= j < conn.to_ids@.len() ==> {
                            let g = #[trigger] conn.to_ids@[j];
                            g < c.gates.len() && c.gates[g as int].reads(WireId(id))
                        },
                    forall|g: usize| input_gates@.contains(g) ==> #[trigger] is_seed(c, g as int),
                    forall|j: int, g: int|
                        0 <= j < i && 0 <= g < c.gates.len() && (#[trigger] c.gates[g]).reads(
                            #[trigger] c.inputs[j],
                        ) ==> input_gates@.contains(g as usize),
                    forall|j: int| 0 <= j < k ==> input_gates@.contains(#[trigger] conn.to_ids@[j]),
                decreases conn.to_ids@.len() - k,
            {
                input_gates.insert(conn.to_ids[k]);
                k += 1;
            }
        }
        i += 1;
    }

    let ghost order = spec_hash_keys_iter(&input_gates).remaining();
    proof {
        reveal(marks);
        assert(marks(gate_visited@, Seq::<int>::empty()));
        assert forall|j: int| 0 <= j < order.len() implies input_gates@.contains(*#[trigger] order[j]) by {
            assert(order.unref()[j] == *order[j]);
            assert(order.unref().to_set().contains(order.unref()[j]));
        }
        assert forall|g: usize| input_gates@.contains(g) implies exists|j: int|
            0 <= j < order.len() && *#[trigger] order[j] == g by {
            assert(order.unref().to_set().contains(g));
            let j = choose|j: int| 0 <= j < order.unref().len() && order.unref()[j] == g;
            assert(*order[j] == g);
        }
    }
    for g in seeds: input_gates.iter()
        invariant
            c == circuit@,
            seeds.seq() == order,
            gates@ == c.gates,
            c.numbered(),
            c.gates_in_range(),
            indexes(c, wire_connections@, c.gates.len() as int),
            gate_visited@.len() == gates@.len(),
            marks(gate_visited@, Seq::<int>::empty()),
            forall|j: int| 0 <= j < order.len() ==> is_seed(c, *(#[trigger] order[j]) as int),
            forall|j: int|
                0 <= j < seeds.index() ==> clean_from(c, *(#[trigger] order[j]) as int, Seq::<int>::empty()),
    {
        if let Some((gate_id, wire_id)) = dfs(
            *g,
            0,
            gates,
            &mut gate_visited,
            &wire_connections,
            Ghost(c),
            Ghost(Seq::empty()),
        ) {
            proof {
                assert(is_seed(c, *g as int));
                lemma_re_enters(c, gate_id as int, WireId(wire_id));
                assert(reachable(c, gate_id as int));
            }
            return Some((gate_id, WireId::from(wire_id)));
        }
    }
    proof {
        assert forall|s: int| #[trigger] is_seed(c, s) implies clean_from(c, s, Seq::empty()) by {
            let i = choose|i: int| 0 <= i < c.inputs.len() && c.gates[s].reads(#[trigger] c.inputs[i]);
            assert(input_gates@.contains(s as usize));
            let j = choose|j: int| 0 <= j < order.len() && *#[trigger] order[j] == s as usize;
            assert(clean_from(c, *order[j] as int, Seq::<int>::empty()));
        }
        lemma_clean_seeds(c);
    }
    None
}

} // verus!
