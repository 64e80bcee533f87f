use artgc_core::circuit::{Circuit, GateType, WireId};
use artgc_core::detect_cycle::detect_cycle;

#[test]
fn circuit_with_no_cycles() {
    //
    //       `out2`
    //         |
    //       +---+
    //       | * | gate2
    //       +---+
    //   +----+ +-------+
    //   |              | `out1`
    // `in3`          +---+
    //                | + | gate1
    //                +---+
    //            +----+ +----+
    //            |           |
    //          `in1`       `in2`
    //
    let mut circuit = Circuit::new();

    // create gate1
    let in1 = circuit.create_new_wire();
    let in2 = circuit.create_new_wire();
    let out1 = circuit.create_new_wire();
    circuit.add_gate(GateType::Add, in1, in2, out1);

    // create gate2
    let in3 = circuit.create_new_wire();
    let out2 = circuit.create_new_wire();
    circuit.add_gate(GateType::Mul, in3, out1, out2);

    circuit.mark_input(in1);
    circuit.mark_input(in2);
    circuit.mark_input(in3);
    circuit.mark_output(out2);

    assert_eq!(detect_cycle(&circuit), None, "No cycle should be detected.");
}

#[test]
fn circuit_with_a_cycle() {
    //
    //       `out`
    //         +--------------+
    //         |              |
    //       +---+            |
    //       | * | gate0      |
    //       +---+            |
    //   +----+ +-------+     |
    //   |              |     |
    // `in1`          +---+   |
    //          gate1 | + |   |
    //                +---+   |
    //           +-----+ +----+
    //           |
    //         `in2`
    //
    let mut circuit = Circuit::new();

    // create gate1
    let x1_id = circuit.create_new_wire();
    let y1_id = circuit.create_new_wire();
    let out1_id = circuit.create_new_wire();
    circuit.add_gate(GateType::Mul, x1_id, y1_id, out1_id);

    let x2_id = circuit.create_new_wire();
    circuit.add_gate(GateType::Add, x2_id, out1_id, y1_id);

    circuit.mark_input(x1_id);
    circuit.mark_input(x2_id);
    circuit.mark_output(out1_id);

    assert!(detect_cycle(&circuit).is_some(), "Cycle should be detected");
}

#[test]
fn reported_gate_and_wire_lie_on_the_cycle() {
    let mut circuit = Circuit::new();
    let x1 = circuit.create_new_wire();
    let y1 = circuit.create_new_wire();
    let out1 = circuit.create_new_wire();
    let gate0 = circuit.add_gate(GateType::Mul, x1, y1, out1);
    let x2 = circuit.create_new_wire();
    let gate1 = circuit.add_gate(GateType::Add, x2, out1, y1);
    circuit.mark_input(x1);
    circuit.mark_input(x2);
    circuit.mark_output(out1);

    // the search may start at either gate: the cycle is entered again
    // where the search started, through the wire that the other gate writes
    let found = detect_cycle(&circuit);
    assert!(
        found == Some((gate0, y1)) || found == Some((gate1, out1)),
        "found {:?}",
        found
    );
}

#[test]
fn circuit_with_a_cycle_2() {
    //
    //       `out0`         `out1`
    //          |     +-------+--------------+
    //        +---+   |       |              |
    //  gate0 | + |   |     +---+            |
    //        +---+   |     | + | gate1      |
    //    +----+ +----+     +---+            |
    //    |             +----+ +-------+     |
    //  `in0`           |       `mid0` |     |
    //                `in1`          +---+   |
    //                         gate2 | + |   |
    //                               +---+   |
    //                          +-----+ +----+
    //                          |
    //                        `in2`
    //
    let mut circuit = Circuit::new();

    // create gate1
    let in0 = circuit.create_new_wire();
    let in1 = circuit.create_new_wire();
    let in2 = circuit.create_new_wire();
    let mid0 = circuit.create_new_wire();
    let out0 = circuit.create_new_wire();
    let out1 = circuit.create_new_wire();

    let _gate0 = circuit.add_gate(GateType::Add, in0, out1, out0);
    let _gate1 = circuit.add_gate(GateType::Add, in1, mid0, out1);
    let _gate2 = circuit.add_gate(GateType::Add, in2, out1, mid0);

    circuit.mark_input(in0);
    circuit.mark_input(in1);
    circuit.mark_input(in2);
    circuit.mark_output(out0);
    circuit.mark_output(out1);

    assert!(detect_cycle(&circuit).is_some(), "Cycle should be detected");
}

#[test]
fn diamond_is_not_a_cycle() {
    // one wire feeds two gates, whose outputs meet again in a third
    let mut circuit = Circuit::new();
    let a = circuit.create_new_wire();
    let b = circuit.create_new_wire();
    let shared = circuit.create_new_wire();
    let left = circuit.create_new_wire();
    let right = circuit.create_new_wire();
    let top = circuit.create_new_wire();
    circuit.add_gate(GateType::Add, a, b, shared);
    circuit.add_gate(GateType::Mul, shared, a, left);
    circuit.add_gate(GateType::Mul, shared, b, right);
    circuit.add_gate(GateType::Add, left, right, top);
    circuit.mark_input(a);
    circuit.mark_input(b);
    circuit.mark_output(top);

    assert_eq!(detect_cycle(&circuit), None);
}

#[test]
fn self_loop_is_reported_with_its_wire() {
    let mut circuit = Circuit::new();
    let input = circuit.create_new_wire();
    let looped = circuit.create_new_wire();
    let gate = circuit.add_gate(GateType::Add, input, looped, looped);
    circuit.mark_input(input);
    circuit.mark_output(looped);

    assert_eq!(detect_cycle(&circuit), Some((gate, WireId(1))));
}

#[test]
fn cycle_behind_an_acyclic_part_is_found() {
    let mut circuit = Circuit::new();
    let a = circuit.create_new_wire();
    let b = circuit.create_new_wire();
    let ab = circuit.create_new_wire();
    let x = circuit.create_new_wire();
    let y = circuit.create_new_wire();
    circuit.add_gate(GateType::Add, a, b, ab);
    let enter = circuit.add_gate(GateType::Mul, ab, y, x);
    let back = circuit.add_gate(GateType::Add, x, x, y);
    circuit.mark_input(a);
    circuit.mark_input(b);
    circuit.mark_output(y);

    let (gate, wire) = detect_cycle(&circuit).unwrap();
    assert_eq!((gate, wire), (enter, y));
    assert_eq!(circuit.get_gate(back).unwrap().get_output(), wire);
}

#[test]
fn cycle_that_no_input_reaches_is_not_found() {
    let mut circuit = Circuit::new();
    let a = circuit.create_new_wire();
    let b = circuit.create_new_wire();
    let sum = circuit.create_new_wire();
    let x = circuit.create_new_wire();
    let y = circuit.create_new_wire();
    circuit.add_gate(GateType::Add, a, b, sum);
    // two gates that feed each other, apart from the inputs
    circuit.add_gate(GateType::Mul, x, x, y);
    circuit.add_gate(GateType::Mul, y, y, x);
    circuit.mark_input(a);
    circuit.mark_input(b);
    circuit.mark_output(sum);

    assert_eq!(detect_cycle(&circuit), None);
}

#[test]
fn circuit_without_inputs_has_nowhere_to_start() {
    let mut circuit = Circuit::new();
    let x = circuit.create_new_wire();
    circuit.add_gate(GateType::Add, x, x, x);
    circuit.mark_output(x);

    assert_eq!(detect_cycle(&circuit), None);
}

#[test]
fn input_marked_with_an_unknown_wire_is_passed_over() {
    let mut circuit = Circuit::new();
    let a = circuit.create_new_wire();
    let out = circuit.create_new_wire();
    circuit.add_gate(GateType::Add, a, a, out);
    circuit.mark_input(WireId(99));
    circuit.mark_input(a);
    circuit.mark_output(out);

    assert_eq!(detect_cycle(&circuit), None);
}

#[test]
fn empty_circuit_has_no_cycle() {
    assert_eq!(detect_cycle(&Circuit::new()), None);
}

#[test]
fn long_chain_has_no_cycle() {
    let mut circuit = Circuit::new();
    let start = circuit.create_new_wire();
    circuit.mark_input(start);
    let mut last = start;
    for _ in 0..200 {
        let next = circuit.create_new_wire();
        circuit.add_gate(GateType::Add, last, start, next);
        last = next;
    }
    circuit.mark_output(last);

    assert_eq!(detect_cycle(&circuit), None);
}
