use artgc_core::circuit::{Circuit, Gate, GateType, WireId};
use artgc_core::error::CircuitError;

#[test]
fn simple_valid_circuit() {
    let mut circuit = Circuit::new();
    let input = circuit.create_new_wire();
    circuit.mark_input(input);

    let output = circuit.create_new_wire();
    circuit.mark_output(output);

    assert!(circuit.is_valid().is_ok(), "Circuit should be valid");
}

#[test]
fn circuit_without_input_should_be_invalid() {
    let mut circuit = Circuit::new();
    let output = circuit.create_new_wire();
    circuit.mark_output(output);
    let res = circuit.is_valid();
    assert!(res.is_err(), "Circuit should be invalid");
    assert_eq!(
        res,
        Err(CircuitError::EmptyInput),
        "Result should be CircuitError::EmptyInput"
    );
}

#[test]
fn circuit_without_output_should_be_invalid() {
    let mut circuit = Circuit::new();
    let input = circuit.create_new_wire();
    circuit.mark_input(input);

    let res = circuit.is_valid();
    assert!(res.is_err(), "Circuit should be invalid");
    assert_eq!(
        res,
        Err(CircuitError::EmptyOutput),
        "Result should be CircuitError::EmptyOutput"
    );
}

#[test]
fn empty_circuit_reports_missing_input_first() {
    let circuit = Circuit::new();
    assert_eq!(circuit.is_valid(), Err(CircuitError::EmptyInput));
}

#[test]
fn new_circuit_is_empty() {
    let circuit = Circuit::new();
    assert_eq!(circuit.get_wire_count(), 0);
    assert_eq!(circuit.get_gate_count(), 0);
    assert!(circuit.get_all_gates().is_empty());
    assert!(circuit.get_all_inputs().is_empty());
    assert!(circuit.get_all_outputs().is_empty());
    assert!(circuit.get_gate(0).is_none());
}

#[test]
fn wires_are_numbered_from_zero() {
    let mut circuit = Circuit::new();
    assert_eq!(circuit.create_new_wire(), WireId(0));
    assert_eq!(circuit.create_new_wire(), WireId(1));
    assert_eq!(circuit.create_new_wire(), WireId(2));
    assert_eq!(circuit.get_wire_count(), 3);
}

#[test]
fn gates_are_numbered_in_creation_order() {
    let mut circuit = Circuit::new();
    let a = circuit.create_new_wire();
    let b = circuit.create_new_wire();
    let c = circuit.create_new_wire();
    let d = circuit.create_new_wire();
    assert_eq!(circuit.add_gate(GateType::Add, a, b, c), 0);
    assert_eq!(circuit.add_gate(GateType::Mul, c, a, d), 1);
    assert_eq!(circuit.get_gate_count(), 2);
    assert_eq!(circuit.get_all_gates().len(), 2);

    let first = circuit.get_gate(0).unwrap();
    assert!(matches!(first, Gate::Add { id: 0, .. }));
    assert_eq!(first.get_id(), 0);
    assert_eq!(first.get_inputs(), (a, b));
    assert_eq!(first.get_output(), c);
    assert_eq!(first.gate_type(), GateType::Add);

    let second = circuit.get_gate(1).unwrap();
    assert!(matches!(second, Gate::Mul { id: 1, .. }));
    assert_eq!(second.get_id(), 1);
    assert_eq!(second.get_inputs(), (c, a));
    assert_eq!(second.get_output(), d);
    assert_eq!(second.gate_type(), GateType::Mul);

    assert!(circuit.get_gate(2).is_none());
}

#[test]
fn add_gate_takes_wires_as_given() {
    // wires that the circuit never handed out are accepted as they are
    let mut circuit = Circuit::new();
    let id = circuit.add_gate(GateType::Add, WireId(7), WireId(8), WireId(9));
    assert_eq!(id, 0);
    assert_eq!(circuit.get_wire_count(), 0);
    let gate = circuit.get_gate(0).unwrap();
    assert_eq!(gate.get_inputs(), (WireId(7), WireId(8)));
    assert_eq!(gate.get_output(), WireId(9));
}

#[test]
fn marks_keep_their_order() {
    let mut circuit = Circuit::new();
    let a = circuit.create_new_wire();
    let b = circuit.create_new_wire();
    let c = circuit.create_new_wire();
    circuit.mark_input(c);
    circuit.mark_input(a);
    circuit.mark_output(b);
    circuit.mark_output(c);
    circuit.mark_output(b);
    assert_eq!(circuit.get_all_inputs(), &[c, a]);
    assert_eq!(circuit.get_all_outputs(), &[b, c, b]);
    assert_eq!(circuit.get_wire_count(), 3);
    assert_eq!(circuit.get_gate_count(), 0);
}

#[test]
fn wire_id_converts_to_and_from_its_number() {
    let wire = WireId::from(5);
    assert_eq!(wire, WireId(5));
    let number: usize = wire.into();
    assert_eq!(number, 5);
    let borrowed: usize = (&wire).into();
    assert_eq!(borrowed, 5);
}

#[test]
fn error_texts() {
    assert_eq!(
        CircuitError::EmptyInput.to_string(),
        "This circuit has no input."
    );
    assert_eq!(
        CircuitError::EmptyOutput.to_string(),
        "This circuit has no output."
    );
    assert_eq!(
        CircuitError::CyclicPath {
            gate_id: 12,
            wire_id: 0
        }
        .to_string(),
        "This circuit has cyclic path. Gate with id12 has input wire with id0."
    );
    assert_eq!(
        CircuitError::CyclicPath {
            gate_id: 9,
            wire_id: 10
        }
        .to_string(),
        "This circuit has cyclic path. Gate with id9 has input wire with id10."
    );
    assert_eq!(
        CircuitError::CyclicPath {
            gate_id: 1090,
            wire_id: 305_007
        }
        .to_string(),
        "This circuit has cyclic path. Gate with id1090 has input wire with id305007."
    );
}
