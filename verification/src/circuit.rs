//! The circuit model: wires, gates, and the builder that owns them.
//!
//! A circuit is a graph whose nodes are gates. Gates do not point at each
//! other: two gates are connected when the output wire of one is an input
//! wire of the other.

use crate::error::CircuitError;
use vstd::prelude::*;
use vstd::std_specs::convert::FromSpecImpl;

verus! {

/// Identity of a wire. It carries no value, only a number that the owning
/// circuit handed out.
#[derive(Clone, Copy, Debug, PartialEq, Eq, Structural)]
pub struct WireId(pub usize);

impl From<usize> for WireId {
    fn from(val: usize) -> (id: WireId) {
        WireId(val)
    }
}

impl FromSpecImpl<usize> for WireId {
    open spec fn obeys_from_spec() -> bool {
        true
    }

    open spec fn from_spec(val: usize) -> WireId {
        WireId(val)
    }
}

impl From<WireId> for usize {
    fn from(id: WireId) -> (val: usize) {
        id.0
    }
}

impl FromSpecImpl<WireId> for usize {
    open spec fn obeys_from_spec() -> bool {
        true
    }

    open spec fn from_spec(id: WireId) -> usize {
        id.0
    }
}

impl<'a> From<&'a WireId> for usize {
    fn from(id: &'a WireId) -> (val: usize) {
        id.0
    }
}

impl<'a> FromSpecImpl<&'a WireId> for usize {
    open spec fn obeys_from_spec() -> bool {
        true
    }

    open spec fn from_spec(id: &'a WireId) -> usize {
        id.0
    }
}

/// The operation a gate performs.
#[derive(Clone, Copy, Debug, PartialEq, Eq, Structural)]
pub enum GateType {
    Add,
    Mul,
}

/// A gate: its identifier, its two input wires and its output wire.
#[derive(Debug)]
pub enum Gate {
    Add { id: usize, x: WireId, y: WireId, out: WireId },
    Mul { id: usize, x: WireId, y: WireId, out: WireId },
}

impl Gate {
    /// Identifier of this gate.
    pub open spec fn ident(self) -> usize {
        match self {
            Gate::Add { id, .. } => id,
            Gate::Mul { id, .. } => id,
        }
    }

    /// The wire that carries this gate's result.
    pub open spec fn output(self) -> WireId {
        match self {
            Gate::Add { out, .. } => out,
            Gate::Mul { out, .. } => out,
        }
    }

    /// The first input wire.
    pub open spec fn left(self) -> WireId {
        match self {
            Gate::Add { x, .. } => x,
            Gate::Mul { x, .. } => x,
        }
    }

    /// The second input wire.
    pub open spec fn right(self) -> WireId {
        match self {
            Gate::Add { y, .. } => y,
            Gate::Mul { y, .. } => y,
        }
    }

    /// The operation that this gate performs.
    pub open spec fn kind(self) -> GateType {
        match self {
            Gate::Add { .. } => GateType::Add,
            Gate::Mul { .. } => GateType::Mul,
        }
    }

    /// Whether `wire` is one of this gate's two inputs.
    pub open spec fn reads(self, wire: WireId) -> bool {
        self.left() == wire || self.right() == wire
    }

    /// A gate of the given kind with the given identifier and wires.
    pub open spec fn build(kind: GateType, id: usize, x: WireId, y: WireId, out: WireId) -> Gate {
        match kind {
            GateType::Add => Gate::Add { id, x, y, out },
            GateType::Mul => Gate::Mul { id, x, y, out },
        }
    }

    /// Identifier of this gate.
    pub fn get_id(&self) -> (id: usize)
        ensures
            id == self.ident(),
    {
        match self {
            Gate::Add { id, .. } => *id,
            Gate::Mul { id, .. } => *id,
        }
    }

    /// The wire that this gate writes.
    pub fn get_output(&self) -> (out: WireId)
        ensures
            out == self.output(),
    {
        match self {
            Gate::Add { out, .. } => *out,
            Gate::Mul { out, .. } => *out,
        }
    }

    /// The two wires that this gate reads, first and second.
    pub fn get_inputs(&self) -> (pair: (WireId, WireId))
        ensures
            pair.0 == self.left(),
            pair.1 == self.right(),
    {
        match self {
            Gate::Add { x, y, .. } => (*x, *y),
            Gate::Mul { x, y, .. } => (*x, *y),
        }
    }

    /// Whether this gate adds or multiplies.
    pub fn gate_type(&self) -> (kind: GateType)
        ensures
            kind == self.kind(),
    {
        match self {
            Gate::Add { .. } => GateType::Add,
            Gate::Mul { .. } => GateType::Mul,
        }
    }
}

/// What a circuit is, as plain mathematical data.
pub struct CircuitView {
    /// The wires marked as inputs, in the order of marking.
    pub inputs: Seq<WireId>,
    /// The wires marked as outputs, in the order of marking.
    pub outputs: Seq<WireId>,
    /// The gates, in the order of creation.
    pub gates: Seq<Gate>,
    /// How many wires were handed out.
    pub wire_count: nat,
    /// How many gate identifiers were handed out.
    pub gate_count: nat,
}

impl CircuitView {
    /// The circuit with no wire and no gate.
    pub open spec fn empty() -> CircuitView {
        CircuitView {
            inputs: Seq::empty(),
            outputs: Seq::empty(),
            gates: Seq::empty(),
            wire_count: 0,
            gate_count: 0,
        }
    }

    /// Whether `wire` was marked as an input.
    pub open spec fn is_input(self, wire: WireId) -> bool {
        self.inputs.contains(wire)
    }

    /// Whether `g` is a gate of the circuit whose output is `wire`.
    pub open spec fn produces(self, g: int, wire: WireId) -> bool {
        0 <= g < self.gates.len() && self.gates[g].output() == wire
    }

    /// The counter of gates is the number of gates, and gate `g` carries the
    /// identifier `g`. A circuit that was built from an empty one by the
    /// builder's operations has this property.
    pub open spec fn numbered(self) -> bool {
        &&& self.gate_count == self.gates.len()
        &&& forall|g: int| 0 <= g < self.gates.len() ==> (#[trigger] self.gates[g]).ident() == g
    }

    /// Every wire that a gate reads or writes was handed out by the circuit.
    pub open spec fn gates_in_range(self) -> bool {
        forall|g: int|
            #![trigger self.gates[g]]
            0 <= g < self.gates.len() ==> {
                &&& self.gates[g].left().0 < self.wire_count
                &&& self.gates[g].right().0 < self.wire_count
                &&& self.gates[g].output().0 < self.wire_count
            }
    }

    /// Every wire marked as an input was handed out by the circuit.
    pub open spec fn inputs_in_range(self) -> bool {
        forall|i: int| 0 <= i < self.inputs.len() ==> (#[trigger] self.inputs[i]).0 < self.wire_count
    }

    /// Every wire marked as an output was handed out by the circuit.
    pub open spec fn outputs_in_range(self) -> bool {
        forall|i: int| 0 <= i < self.outputs.len() ==> (#[trigger] self.outputs[i]).0 < self.wire_count
    }

    /// What layering relies on: every wire that a gate uses or that is
    /// marked as an input was handed out by the circuit, and each wire has
    /// at most one producer.
    pub open spec fn layerable(self) -> bool {
        &&& self.gates_in_range()
        &&& self.inputs_in_range()
        &&& self.single_producer()
    }

    /// No two gates write to the same wire.
    pub open spec fn single_producer(self) -> bool {
        forall|g: int, h: int|
            #![trigger self.gates[g], self.gates[h]]
            0 <= g < self.gates.len() && 0 <= h < self.gates.len() && self.gates[g].output()
                == self.gates[h].output() ==> g == h
    }

    /// Input wires are primary sources: no gate writes to one.
    pub open spec fn inputs_are_sources(self) -> bool {
        forall|g: int|
            #![trigger self.gates[g]]
            0 <= g < self.gates.len() ==> !self.is_input(self.gates[g].output())
    }

    /// What evaluation relies on: every wire in use was handed out by the
    /// circuit, and each wire has at most one producer.
    pub open spec fn well_formed(self) -> bool {
        &&& self.layerable()
        &&& self.outputs_in_range()
    }
}

/// An arithmetic circuit under construction. It owns its wires and gates.
pub struct Circuit {
    inputs: Vec<WireId>,
    outputs: Vec<WireId>,
    gates: Vec<Gate>,
    wire_count: usize,
    gate_count: usize,
}

impl View for Circuit {
    type V = CircuitView;

    closed spec fn view(&self) -> CircuitView {
        CircuitView {
            inputs: self.inputs@,
            outputs: self.outputs@,
            gates: self.gates@,
            wire_count: self.wire_count as nat,
            gate_count: self.gate_count as nat,
        }
    }
}

impl Circuit {
    /// A circuit with no wire and no gate.
    pub fn new() -> (circuit: Circuit)
        ensures
            circuit@ == CircuitView::empty(),
    {
        Circuit { inputs: Vec::new(), outputs: Vec::new(), gates: Vec::new(), wire_count: 0, gate_count: 0 }
    }

    /// How many wires were handed out.
    pub fn get_wire_count(&self) -> (count: usize)
        ensures
            count == self@.wire_count,
    {
        self.wire_count
    }

    /// How many gates were added.
    pub fn get_gate_count(&self) -> (count: usize)
        ensures
            count == self@.gate_count,
    {
        self.gate_count
    }

    /// The gates, in the order of creation.
    pub fn get_all_gates(&self) -> (gates: &[Gate])
        ensures
            gates@ == self@.gates,
    {
        self.gates.as_slice()
    }

    /// Gate number `id` in the order of creation, if there are that many.
    pub fn get_gate(&self, id: usize) -> (gate: Option<&Gate>)
        ensures
            id < self@.gates.len() ==> gate == Some(&self@.gates[id as int]),
            id >= self@.gates.len() ==> gate is None,
    {
        if id < self.gates.len() {
            Some(&self.gates[id])
        } else {
            None
        }
    }

    /// The wires marked as inputs, in the order of marking.
    pub fn get_all_inputs(&self) -> (inputs: &[WireId])
        ensures
            inputs@ == self@.inputs,
    {
        self.inputs.as_slice()
    }

    /// The wires marked as outputs, in the order of marking.
    pub fn get_all_outputs(&self) -> (outputs: &[WireId])
        ensures
            outputs@ == self@.outputs,
    {
        self.outputs.as_slice()
    }

    /// The structural check: a circuit needs an input and an output. A
    /// missing input is reported before a missing output. Connectivity and
    /// cycles are not looked at here.
    pub fn is_valid(&self) -> (res: Result<(), CircuitError>)
        ensures
            self@.inputs.len() == 0 ==> res == Err::<(), CircuitError>(CircuitError::EmptyInput),
            self@.inputs.len() > 0 && self@.outputs.len() == 0 ==> res == Err::<(), CircuitError>(
                CircuitError::EmptyOutput,
            ),
            self@.inputs.len() > 0 && self@.outputs.len() > 0 ==> res is Ok,
    {
        if self.inputs.len() == 0 {
            return Err(CircuitError::EmptyInput);
        } else if self.outputs.len() == 0 {
            return Err(CircuitError::EmptyOutput);
        }
        Ok(())
    }

    /// Appends a gate of the given kind that reads `x_id` and `y_id` and
    /// writes `out_id`, and returns its identifier, which is the counter of
    /// gates before the call. The wires are taken as given: nothing checks
    /// that this circuit handed them out.
    pub fn add_gate(&mut self, gate_type: GateType, x_id: WireId, y_id: WireId, out_id: WireId) -> (id:
        usize)
        requires
            old(self)@.gate_count < usize::MAX,
        ensures
            id == old(self)@.gate_count,
            final(self)@ == (CircuitView {
                gates: old(self)@.gates.push(Gate::build(gate_type, id, x_id, y_id, out_id)),
                gate_count: old(self)@.gate_count + 1,
                ..old(self)@
            }),
            old(self)@.numbered() ==> final(self)@.numbered(),
    {
        let id = self.gate_count;
        let gate = match gate_type {
            GateType::Add => Gate::Add { id, x: x_id, y: y_id, out: out_id },
            GateType::Mul => Gate::Mul { id, x: x_id, y: y_id, out: out_id },
        };

        self.gates.push(gate);
        self.gate_count += 1;

        id
    }

    /// Hands out a fresh wire: its number is the wire counter, which then
    /// goes up by one.
    pub fn create_new_wire(&mut self) -> (wire: WireId)
        requires
            old(self)@.wire_count < usize::MAX,
        ensures
            wire.0 == old(self)@.wire_count,
            final(self)@ == (CircuitView { wire_count: old(self)@.wire_count + 1, ..old(self)@ }),
    {
        let wire_id = WireId::from(self.wire_count);
        self.wire_count += 1;
        wire_id
    }

    /// Marks `wire_id` as the next input of the circuit.
    pub fn mark_input(&mut self, wire_id: WireId)
        ensures
            final(self)@ == (CircuitView { inputs: old(self)@.inputs.push(wire_id), ..old(self)@ }),
    {
        self.inputs.push(wire_id);
    }

    /// Marks `wire_id` as the next output of the circuit.
    pub fn mark_output(&mut self, wire_id: WireId)
        ensures
            final(self)@ == (CircuitView { outputs: old(self)@.outputs.push(wire_id), ..old(self)@ }),
    {
        self.outputs.push(wire_id);
    }
}

} // verus!
