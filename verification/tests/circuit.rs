use mpc::circuit::Circuit;
use mpc::field::Field;
use mpc::gate::Gate;

fn sample() -> (Circuit<u8>, usize) {
    let mut circuit = Circuit::new(3);

    let i0 = circuit.add(Gate::<u8>::new_input(0, 0));
    let i1 = circuit.add(Gate::<u8>::new_input(1, 0));
    let i2 = circuit.add(Gate::<u8>::new_input(2, 0));
    let m01 = circuit.add(Gate::new_mul(i0, i1));
    let m02 = circuit.add(Gate::new_mul(i0, i2));
    let m12 = circuit.add(Gate::new_mul(i1, i2));
    let k0 = circuit.add(Gate::new_mul(m01, m02));
    let k1 = circuit.add(Gate::new_mul(m01, m12));
    let k2 = circuit.add(Gate::new_mul(m12, m02));
    let k00 = circuit.add(Gate::new_mul_by_const(k0, 12));
    let k10 = circuit.add(Gate::new_mul_by_const(k1, 12));
    let k20 = circuit.add(Gate::new_mul_by_const(k2, 12));
    let s = circuit.add(Gate::new_mul(k0, m12));
    let n1 = circuit.add(Gate::new_add(m01, m02));
    let n2 = circuit.add(Gate::new_add(n1, m12));
    let n3 = circuit.add(Gate::new_add(n2, k00));
    let n4 = circuit.add(Gate::new_add(n3, k10));
    let n5 = circuit.add(Gate::new_add(n4, k20));
    let n6 = circuit.add(Gate::new_add(n5, s));
    circuit.set_roots(vec![n6]);
    (circuit, n6)
}

#[test]
fn test_circuit_traversal() {
    let (circuit, _) = sample();

    println!("{:?}", circuit.traverse());
}

#[test]
fn traversal_is_the_post_order_walk() {
    let (circuit, root) = sample();
    assert!(circuit.is_well_formed());
    assert_eq!(root, 18);
    assert_eq!(
        circuit.traverse(),
        vec![0, 1, 3, 2, 4, 13, 5, 14, 6, 9, 15, 7, 10, 16, 8, 11, 17, 12, 18]
    );
}

#[test]
fn operands_come_first_and_nothing_twice() {
    let (circuit, _) = sample();
    let order = circuit.traverse();
    for (place, gate) in order.iter().enumerate() {
        assert!(!order[..place].contains(gate));
        match circuit.get_gate(*gate) {
            Gate::Add { first, second, .. } | Gate::Mul { first, second, .. } => {
                assert!(order[..place].contains(first));
                assert!(order[..place].contains(second));
            }
            Gate::MulByConst { first, .. } => assert!(order[..place].contains(first)),
            Gate::Input { .. } => {}
        }
    }
}

#[test]
fn only_what_the_roots_need_is_visited() {
    let mut circuit = Circuit::<u16>::new(2);
    let a = circuit.add(Gate::new_input(0, 0));
    let b = circuit.add(Gate::new_input(1, 0));
    let unused = circuit.add(Gate::new_mul(a, b));
    let sum = circuit.add(Gate::new_add(b, a));
    let twice = circuit.add(Gate::new_mul_by_const(sum, 2));
    assert_eq!((unused, sum, twice), (2, 3, 4));
    assert_eq!(circuit.traverse(), Vec::<usize>::new());
    circuit.set_roots(vec![twice]);
    assert_eq!(circuit.traverse(), vec![1, 0, 3, 4]);
    circuit.set_roots(vec![sum, twice, sum]);
    assert_eq!(circuit.traverse(), vec![1, 0, 3, 4]);
    circuit.set_roots(vec![a, twice, unused]);
    assert_eq!(circuit.traverse(), vec![0, 1, 3, 4, 2]);
    assert_eq!(circuit.get_roots(), vec![0, 4, 2]);
}

#[test]
fn circuit_accessors() {
    let mut circuit = Circuit::<u16>::new(7);
    assert_eq!(circuit.get_n_parties(), 7);
    assert_eq!(circuit.size(), 0);
    assert_eq!(circuit.get_roots(), Vec::<usize>::new());
    assert_eq!(circuit.add(Gate::new_input(3, 1)), 0);
    assert_eq!(circuit.add(Gate::new_mul_by_const(0, 9)), 1);
    assert_eq!(circuit.size(), 2);
    assert!(matches!(
        circuit.get_gate(0),
        Gate::Input { party: 3, circuit_id: 1, output: None }
    ));
    assert!(matches!(
        circuit.get_gate(1),
        Gate::MulByConst { first: 0, second: 9, output: None }
    ));
    circuit.get_gate_mut(0).set_output(5);
    assert!(circuit.get_gate(0).has_output());
    assert!(!circuit.get_gate(1).has_output());
    assert_eq!(circuit.get_gate(0).get_output(), 5);
    let copy = circuit.clone();
    assert_eq!(copy.size(), 2);
    assert_eq!(copy.get_n_parties(), 7);
    assert_eq!(copy.get_gate(0).get_output(), 5);
}

#[test]
fn gates_keep_their_operands() {
    let mut gate = Gate::<u8>::new_add(4, 2);
    assert!(matches!(gate, Gate::Add { first: 4, second: 2, output: None }));
    gate.set_output(3);
    assert!(matches!(gate, Gate::Add { first: 4, second: 2, output: Some(3) }));
    gate.set_output(9);
    assert_eq!(gate.get_output(), 9);
    let mut gate = Gate::<u8>::new_mul(1, 0);
    assert!(matches!(gate, Gate::Mul { first: 1, second: 0, output: None }));
    gate.set_output(1);
    assert!(matches!(gate, Gate::Mul { first: 1, second: 0, output: Some(1) }));
}

#[test]
fn forward_references_are_not_well_formed() {
    let mut circuit = Circuit::<u8>::new(1);
    circuit.add(Gate::new_add(0, 1));
    circuit.add(Gate::new_input(0, 0));
    assert!(!circuit.is_well_formed());

    let mut circuit = Circuit::<u8>::new(1);
    circuit.add(Gate::new_input(0, 0));
    circuit.add(Gate::new_mul_by_const(1, 3));
    assert!(!circuit.is_well_formed());

    let mut circuit = Circuit::<u8>::new(1);
    circuit.add(Gate::new_input(0, 0));
    assert!(circuit.is_well_formed());
    circuit.set_roots(vec![1]);
    assert!(!circuit.is_well_formed());
    circuit.set_roots(vec![0]);
    assert!(circuit.is_well_formed());
}

#[test]
fn evaluation_in_the_clear() {
    // (a + b) * 3, a * b + c and c itself
    let mut circuit = Circuit::new(3);
    let a = circuit.add(Gate::new_input(0, 0));
    let b = circuit.add(Gate::new_input(1, 0));
    let c = circuit.add(Gate::new_input(2, 1));
    let sum = circuit.add(Gate::new_add(a, b));
    let scaled = circuit.add(Gate::new_mul_by_const(sum, 3));
    let product = circuit.add(Gate::new_mul(a, b));
    let total = circuit.add(Gate::new_add(product, c));
    let unused = circuit.add(Gate::new_mul(total, total));
    circuit.set_roots(vec![scaled, total, c]);
    let field = Field::new(251u16);
    let outputs = circuit.evaluate(&field, &vec![vec![100], vec![50], vec![0, 249]]);
    assert_eq!(outputs, vec![199, (100 * 50 + 249) % 251, 249]);
    assert_eq!(circuit.get_gate(sum).get_output(), 150);
    assert_eq!(circuit.get_gate(product).get_output(), 5000 % 251);
    assert!(!circuit.get_gate(unused).has_output());
}

#[test]
fn the_outputs_do_not_depend_on_the_order_of_insertion() {
    let field = Field::new(13u8);
    let inputs = vec![vec![7u8, 3], vec![8], vec![12]];

    // (a * b + c) * 5 and a * b, the operands before their gates in both
    let mut first = Circuit::new(3);
    let a = first.add(Gate::new_input(0, 0));
    let b = first.add(Gate::new_input(1, 0));
    let c = first.add(Gate::new_input(2, 0));
    let ab = first.add(Gate::new_mul(a, b));
    let abc = first.add(Gate::new_add(ab, c));
    let all = first.add(Gate::new_mul_by_const(abc, 5));
    first.set_roots(vec![all, ab]);

    let mut second = Circuit::new(3);
    let c = second.add(Gate::new_input(2, 0));
    let extra = second.add(Gate::new_input(0, 1));
    let b = second.add(Gate::new_input(1, 0));
    let a = second.add(Gate::new_input(0, 0));
    let ab = second.add(Gate::new_mul(a, b));
    let _ = second.add(Gate::new_add(extra, extra));
    let abc = second.add(Gate::new_add(ab, c));
    let all = second.add(Gate::new_mul_by_const(abc, 5));
    second.set_roots(vec![all, ab]);

    assert_ne!(first.traverse(), second.traverse());
    let expected = vec![((7 * 8 % 13 + 12) % 13) * 5 % 13, 7 * 8 % 13];
    assert_eq!(first.evaluate(&field, &inputs), expected);
    assert_eq!(second.evaluate(&field, &inputs), expected);
    // once more on the filled circuit
    assert_eq!(first.evaluate(&field, &inputs), expected);
}

#[test]
fn inputs_that_the_gates_name_must_be_given() {
    let mut circuit = Circuit::<u8>::new(2);
    let a = circuit.add(Gate::new_input(0, 1));
    let b = circuit.add(Gate::new_input(1, 0));
    let unused = circuit.add(Gate::new_input(5, 5));
    let sum = circuit.add(Gate::new_add(a, b));
    circuit.set_roots(vec![sum]);
    assert!(circuit.takes(&vec![vec![1, 2], vec![3]]));
    assert!(circuit.takes(&vec![vec![1, 2], vec![3], vec![]]));
    assert!(!circuit.takes(&vec![vec![1], vec![3]]));
    assert!(!circuit.takes(&vec![vec![1, 2], vec![]]));
    assert!(!circuit.takes(&vec![vec![1, 2]]));
    circuit.set_roots(vec![sum, unused]);
    assert!(!circuit.takes(&vec![vec![1, 2], vec![3]]));
}
