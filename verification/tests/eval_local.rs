use artgc_core::circuit::{Circuit, GateType, WireId};
use artgc_core::eval_local::{eval_local, label_wires_with_layer, EvalLocalError};
use artgc_core::ring::Ring;
use std::ops::{Add, Mul};

// A prime field used as a ring: the integers modulo 2^61 - 1.
const MODULUS: u64 = (1 << 61) - 1;

#[derive(Clone, Copy, Debug, PartialEq, Eq)]
struct Fp(u64);

impl From<u64> for Fp {
    fn from(val: u64) -> Self {
        Fp(val % MODULUS)
    }
}

impl Add for Fp {
    type Output = Fp;

    fn add(self, rhs: Fp) -> Fp {
        Fp(((self.0 as u128 + rhs.0 as u128) % MODULUS as u128) as u64)
    }
}

impl Mul for Fp {
    type Output = Fp;

    fn mul(self, rhs: Fp) -> Fp {
        Fp(((self.0 as u128 * rhs.0 as u128) % MODULUS as u128) as u64)
    }
}

impl<'a> Add<&'a Fp> for Fp {
    type Output = Fp;

    fn add(self, rhs: &'a Fp) -> Fp {
        self + *rhs
    }
}

impl<'a> Mul<&'a Fp> for Fp {
    type Output = Fp;

    fn mul(self, rhs: &'a Fp) -> Fp {
        self * *rhs
    }
}

impl Ring for Fp {}

#[test]
fn test_add_gate() {
    let mut circuit = Circuit::new();

    // This circuit has a simple add gate
    // x + y = out
    let x_id = circuit.create_new_wire();
    let y_id = circuit.create_new_wire();
    let out_id = circuit.create_new_wire();
    circuit.add_gate(GateType::Add, x_id, y_id, out_id);

    circuit.mark_input(x_id);
    circuit.mark_input(y_id);
    circuit.mark_output(out_id);
    // check circuit is valid
    assert!(circuit.is_valid().is_ok(), "Circuit should be valid");

    // inputs: [x_id, y_id]
    let inputs: Vec<Fp> = vec![2.into(), 3.into()];
    let result = eval_local(&circuit, inputs);
    assert_eq!(result, Ok(vec![5.into()]), "Circuit: 2 + 3 should output 5");
}

#[test]
fn test_mul_gate() {
    let mut circuit = Circuit::new();

    // This circuit has a simple mul gate
    // x * y = out
    let x_id = circuit.create_new_wire();
    let y_id = circuit.create_new_wire();
    let out_id = circuit.create_new_wire();
    circuit.add_gate(GateType::Mul, x_id, y_id, out_id);

    circuit.mark_input(x_id);
    circuit.mark_input(y_id);
    circuit.mark_output(out_id);
    // check circuit is valid
    assert!(circuit.is_valid().is_ok(), "Circuit should be valid");

    // inputs: [x_id, y_id]
    let inputs: Vec<Fp> = vec![2.into(), 3.into()];
    let result = eval_local(&circuit, inputs);
    assert_eq!(result, Ok(vec![6.into()]), "Circuit: 2 * 3 should output 6");
}

#[test]
fn test_multiple_outputs() {
    let mut circuit = Circuit::new();

    // Circuit
    // out1 = in1 + in2
    // out2 = (in1 + in2) * in3

    // gate1
    let in1 = circuit.create_new_wire();
    let in2 = circuit.create_new_wire();
    let out1 = circuit.create_new_wire();
    circuit.add_gate(GateType::Add, in1, in2, out1);

    // gate2
    let in3 = circuit.create_new_wire();
    let out2 = circuit.create_new_wire();
    circuit.add_gate(GateType::Mul, in3, out1, out2);

    circuit.mark_input(in1);
    circuit.mark_input(in2);
    circuit.mark_input(in3);
    circuit.mark_output(out1);
    circuit.mark_output(out2);

    let inputs: Vec<Fp> = vec![1.into(), 2.into(), 3.into()];
    let result = eval_local(&circuit, inputs);
    assert_eq!(
        result,
        Ok(vec![3.into(), 9.into()]),
        "Circuit output2 two values: [3, 9]"
    );
}

// Three gates listed against their dependencies: the last one listed is the
// first that can be evaluated.
fn reversed_chain() -> (Circuit, [WireId; 5]) {
    let mut circuit = Circuit::new();
    let a = circuit.create_new_wire();
    let b = circuit.create_new_wire();
    let first = circuit.create_new_wire();
    let second = circuit.create_new_wire();
    let third = circuit.create_new_wire();
    circuit.add_gate(GateType::Mul, second, b, third);
    circuit.add_gate(GateType::Add, first, a, second);
    circuit.add_gate(GateType::Add, a, b, first);
    circuit.mark_input(a);
    circuit.mark_input(b);
    circuit.mark_output(third);
    circuit.mark_output(first);
    (circuit, [a, b, first, second, third])
}

#[test]
fn gates_listed_in_reverse_are_evaluated_in_layer_order() {
    let (circuit, _) = reversed_chain();
    // first = 4 + 5 = 9, second = 9 + 4 = 13, third = 13 * 5 = 65
    let result = eval_local::<Fp>(&circuit, vec![4.into(), 5.into()]);
    assert_eq!(result, Ok(vec![65.into(), 9.into()]));
}

#[test]
fn layers_count_the_gates_from_the_inputs() {
    let (circuit, [a, b, first, second, third]) = reversed_chain();
    let (buckets, wires) = label_wires_with_layer::<Fp>(&circuit);
    assert_eq!(wires.len(), 5);
    assert_eq!(wires[a.0].layer, Some(0));
    assert_eq!(wires[b.0].layer, Some(0));
    assert_eq!(wires[first.0].layer, Some(1));
    assert_eq!(wires[second.0].layer, Some(2));
    assert_eq!(wires[third.0].layer, Some(3));
    assert!(wires.iter().all(|w| w.value.is_none()));
    assert_eq!(buckets, vec![vec![], vec![2], vec![1], vec![0]]);
}

#[test]
fn output_layer_is_above_both_input_layers() {
    let mut circuit = Circuit::new();
    let a = circuit.create_new_wire();
    let b = circuit.create_new_wire();
    let c = circuit.create_new_wire();
    let ab = circuit.create_new_wire();
    let abc = circuit.create_new_wire();
    let top = circuit.create_new_wire();
    circuit.add_gate(GateType::Add, a, b, ab);
    circuit.add_gate(GateType::Mul, ab, c, abc);
    // one input of layer 0 and one of layer 2
    circuit.add_gate(GateType::Add, a, abc, top);
    circuit.mark_input(a);
    circuit.mark_input(b);
    circuit.mark_input(c);
    circuit.mark_output(top);

    let (buckets, wires) = label_wires_with_layer::<Fp>(&circuit);
    for gate in circuit.get_all_gates() {
        let (x, y) = gate.get_inputs();
        let out = wires[gate.get_output().0].layer.unwrap();
        assert!(out > wires[x.0].layer.unwrap());
        assert!(out > wires[y.0].layer.unwrap());
    }
    assert_eq!(wires[top.0].layer, Some(3));
    assert_eq!(buckets, vec![vec![], vec![0], vec![1], vec![2]]);
}

#[test]
fn gates_of_one_layer_share_a_bucket() {
    let mut circuit = Circuit::new();
    let a = circuit.create_new_wire();
    let b = circuit.create_new_wire();
    let sum = circuit.create_new_wire();
    let product = circuit.create_new_wire();
    let top = circuit.create_new_wire();
    circuit.add_gate(GateType::Add, a, b, sum);
    circuit.add_gate(GateType::Mul, a, b, product);
    circuit.add_gate(GateType::Mul, sum, product, top);
    circuit.mark_input(a);
    circuit.mark_input(b);
    circuit.mark_output(top);

    let (buckets, _) = label_wires_with_layer::<Fp>(&circuit);
    assert_eq!(buckets, vec![vec![], vec![0, 1], vec![2]]);
    // (3 + 4) * (3 * 4) = 84
    assert_eq!(
        eval_local::<Fp>(&circuit, vec![3.into(), 4.into()]),
        Ok(vec![84.into()])
    );
}

#[test]
fn evaluating_twice_gives_the_same_result() {
    let (circuit, _) = reversed_chain();
    let first = eval_local::<Fp>(&circuit, vec![7.into(), 11.into()]);
    let second = eval_local::<Fp>(&circuit, vec![7.into(), 11.into()]);
    assert_eq!(first, second);
    // (7 + 11 + 7) * 11 = 275
    assert_eq!(first, Ok(vec![275.into(), 18.into()]));
}

#[test]
fn wire_that_nothing_writes_is_an_empty_wire() {
    let mut circuit = Circuit::new();
    let a = circuit.create_new_wire();
    let dangling = circuit.create_new_wire();
    let out = circuit.create_new_wire();
    circuit.add_gate(GateType::Add, a, dangling, out);
    circuit.mark_input(a);
    circuit.mark_output(out);

    assert_eq!(
        eval_local::<Fp>(&circuit, vec![1.into()]),
        Err(EvalLocalError::EmptyWire)
    );
    let (buckets, wires) = label_wires_with_layer::<Fp>(&circuit);
    assert!(buckets.is_empty());
    assert_eq!(wires[a.0].layer, Some(0));
    assert_eq!(wires[dangling.0].layer, None);
    assert_eq!(wires[out.0].layer, None);
}

#[test]
fn cycle_is_an_empty_wire() {
    let mut circuit = Circuit::new();
    let a = circuit.create_new_wire();
    let looped = circuit.create_new_wire();
    circuit.add_gate(GateType::Mul, a, looped, looped);
    circuit.mark_input(a);
    circuit.mark_output(looped);

    assert_eq!(
        eval_local::<Fp>(&circuit, vec![0.into()]),
        Err(EvalLocalError::EmptyWire)
    );
}

#[test]
fn output_may_echo_an_input() {
    let mut circuit = Circuit::new();
    let a = circuit.create_new_wire();
    circuit.mark_input(a);
    circuit.mark_output(a);
    circuit.mark_output(a);

    assert_eq!(
        eval_local::<Fp>(&circuit, vec![42.into()]),
        Ok(vec![42.into(), 42.into()])
    );
}

#[test]
fn wire_marked_twice_takes_its_last_value() {
    let mut circuit = Circuit::new();
    let a = circuit.create_new_wire();
    let b = circuit.create_new_wire();
    let out = circuit.create_new_wire();
    circuit.add_gate(GateType::Add, a, b, out);
    circuit.mark_input(a);
    circuit.mark_input(b);
    circuit.mark_input(a);
    circuit.mark_output(out);

    // a takes 30, the value at its last mark
    assert_eq!(
        eval_local::<Fp>(&circuit, vec![10.into(), 2.into(), 30.into()]),
        Ok(vec![32.into()])
    );
}

#[test]
fn gate_that_writes_an_input_is_passed_over() {
    let mut circuit = Circuit::new();
    let a = circuit.create_new_wire();
    let b = circuit.create_new_wire();
    circuit.add_gate(GateType::Add, a, a, b);
    circuit.mark_input(a);
    circuit.mark_input(b);
    circuit.mark_output(b);

    let (buckets, wires) = label_wires_with_layer::<Fp>(&circuit);
    assert!(buckets.is_empty());
    assert_eq!(wires[b.0].layer, Some(0));
    assert_eq!(
        eval_local::<Fp>(&circuit, vec![5.into(), 9.into()]),
        Ok(vec![9.into()])
    );
}

#[test]
fn values_wrap_as_the_ring_says() {
    let mut circuit = Circuit::new();
    let a = circuit.create_new_wire();
    let b = circuit.create_new_wire();
    let out = circuit.create_new_wire();
    circuit.add_gate(GateType::Add, a, b, out);
    circuit.mark_input(a);
    circuit.mark_input(b);
    circuit.mark_output(out);

    // (p - 1) + 2 = 1 modulo p
    assert_eq!(
        eval_local::<Fp>(&circuit, vec![(MODULUS - 1).into(), 2.into()]),
        Ok(vec![1.into()])
    );
}

#[test]
fn empty_circuit_evaluates_to_nothing() {
    let circuit = Circuit::new();
    assert_eq!(eval_local::<Fp>(&circuit, vec![]), Ok(vec![]));
}

#[test]
fn bucket_index_is_the_layer_of_the_output_wire() {
    let (circuit, _) = reversed_chain();
    let (buckets, wires) = label_wires_with_layer::<Fp>(&circuit);
    let gates = circuit.get_all_gates();
    let mut seen = 0;
    for (layer, bucket) in buckets.iter().enumerate() {
        for id in bucket {
            assert_eq!(wires[gates[*id].get_output().0].layer, Some(layer));
            seen += 1;
        }
    }
    assert_eq!(seen, gates.len());
    assert!(buckets[0].is_empty());
}

#[test]
fn gates_stand_in_a_bucket_in_the_order_of_the_scans() {
    let mut circuit = Circuit::new();
    let a = circuit.create_new_wire();
    let b = circuit.create_new_wire();
    let first = circuit.create_new_wire();
    let second = circuit.create_new_wire();
    let third = circuit.create_new_wire();
    let other = circuit.create_new_wire();
    // gate 0 has to wait for gate 1, and gate 1 for gate 2
    circuit.add_gate(GateType::Mul, second, b, third);
    circuit.add_gate(GateType::Add, first, a, second);
    circuit.add_gate(GateType::Add, a, b, first);
    // gate 3 reads what gate 1 writes, and comes after it in the same scan
    circuit.add_gate(GateType::Mul, second, second, other);
    circuit.mark_input(a);
    circuit.mark_input(b);
    circuit.mark_output(third);
    circuit.mark_output(other);

    let (buckets, wires) = label_wires_with_layer::<Fp>(&circuit);
    assert_eq!(wires[third.0].layer, Some(3));
    assert_eq!(wires[other.0].layer, Some(3));
    // gate 3 got its layer in the second scan, gate 0 in the third
    assert_eq!(buckets, vec![vec![], vec![2], vec![1], vec![3, 0]]);
    // first = 2 + 3 = 5, second = 5 + 2 = 7, third = 7 * 3 = 21, other = 49
    assert_eq!(
        eval_local::<Fp>(&circuit, vec![2.into(), 3.into()]),
        Ok(vec![21.into(), 49.into()])
    );
}
