use mpc::circuit::Circuit;
use mpc::field::Field;
use mpc::gate::Gate;
use mpc::message::Message;
use mpc::party::Party;
use mpc::share_receiver::ShareReceiver;
use mpc::share_sender::ShareSender;
use mpc::voting::generate_circuit;
use std::cell::RefCell;
use std::collections::VecDeque;
use std::rc::Rc;

fn run(cir: Circuit<u16>, field_order: u16, input: Vec<Vec<u16>>) -> Vec<u16> {
    let field = Field::<u16>::new(field_order);
    let mut circuit = cir.clone();
    assert!(circuit.is_well_formed());
    circuit.evaluate(&field, &input)
}

#[test]
fn lib_test_circuit_1() {
    let number_of_voters = 5;
    let vote_threshold = 3;
    let number_of_options = 2;
    let group_order: u16 = 251;
    let input = vec![vec![0, 0], vec![1, 0], vec![1, 1], vec![1, 0], vec![1, 0]];

    let circuit = generate_circuit(number_of_voters, vote_threshold, number_of_options, group_order);

    assert_eq!(run(circuit, 251, input), vec![1, 0])
}

#[test]
fn lib_test_circuit_2() {
    let number_of_voters = 4;
    let vote_threshold = 2;
    let number_of_options = 3;
    let group_order: u16 = 251;
    let input = vec![vec![0, 0, 0], vec![1, 0, 0], vec![1, 1, 0], vec![1, 1, 1]];

    let circuit = generate_circuit(number_of_voters, vote_threshold, number_of_options, group_order);

    assert_eq!(run(circuit, 251, input), vec![1, 1, 0])
}

#[test]
fn lib_test_circuit_3() {
    let number_of_voters = 3;
    let vote_threshold = 2;
    let number_of_options = 5;
    let group_order: u16 = 251;
    let input = vec![vec![1, 1, 1, 0, 0], vec![1, 1, 0, 0, 0], vec![1, 0, 0, 0, 0]];

    let circuit = generate_circuit(number_of_voters, vote_threshold, number_of_options, group_order);

    assert_eq!(run(circuit, 251, input), vec![1, 1, 0, 0, 0])
}

#[test]
fn util_test_circuit_1() {
    let number_of_voters = 5;
    let vote_threshold = 3;
    let number_of_options = 2;
    let group_order: u16 = 251;
    let input = vec![vec![0, 0], vec![1, 0], vec![1, 1], vec![1, 0], vec![1, 0]];

    let circuit = generate_circuit(number_of_voters, vote_threshold, number_of_options, group_order);

    assert_eq!(run(circuit, 251, input), vec![1, 0])
}

#[test]
fn util_test_circuit_2() {
    let number_of_voters = 4;
    let vote_threshold = 2;
    let number_of_options = 3;
    let group_order: u16 = 251;
    let input = vec![vec![0, 0, 0], vec![1, 0, 0], vec![1, 1, 0], vec![1, 1, 1]];

    let circuit = generate_circuit(number_of_voters, vote_threshold, number_of_options, group_order);

    assert_eq!(run(circuit, 251, input), vec![1, 1, 0])
}

#[test]
fn util_test_circuit_3() {
    let number_of_voters = 3;
    let vote_threshold = 2;
    let number_of_options = 5;
    let group_order: u16 = 251;
    let input = vec![vec![1, 1, 1, 0, 0], vec![1, 1, 0, 0, 0], vec![1, 0, 0, 0, 0]];

    let circuit = generate_circuit(number_of_voters, vote_threshold, number_of_options, group_order);

    assert_eq!(run(circuit, 251, input), vec![1, 1, 0, 0, 0])
}

type Queue = Rc<RefCell<VecDeque<Message<u16>>>>;

struct QueueReceiver {
    queue: Queue,
}

impl ShareReceiver<Message<u16>> for QueueReceiver {
    fn recv(&mut self) -> Option<Message<u16>> {
        self.queue.borrow_mut().pop_front()
    }
}

struct QueueSender {
    queue: Queue,
}

impl ShareSender<Message<u16>> for QueueSender {
    fn send(&mut self, msg: Message<u16>) {
        self.queue.borrow_mut().push_back(msg);
    }
}

/// Runs every voter in turn, each as far as its messages reach, until all
/// have the outcome.
fn vote(order: u16, circuit: &Circuit<u16>, threshold: usize, choices: Vec<Vec<u16>>) -> Vec<Vec<u16>> {
    let n = choices.len();
    let queues: Vec<Queue> = (0..n).map(|_| Rc::new(RefCell::new(VecDeque::new()))).collect();
    let mut parties: Vec<Party<u16>> = Vec::new();
    for (id, secret) in choices.into_iter().enumerate() {
        let rx = Box::new(QueueReceiver { queue: queues[id].clone() });
        let txs: Vec<Box<dyn ShareSender<Message<u16>>>> = queues
            .iter()
            .map(|queue| Box::new(QueueSender { queue: queue.clone() }) as _)
            .collect();
        let field = Field::new(order);
        assert!(Party::accepts(id, &secret, txs.len(), &field, circuit, threshold));
        parties.push(Party::new(id, secret, rx, txs, field, circuit.clone(), threshold));
    }
    let mut set_up = vec![false; n];
    while set_up.iter().any(|done| !done) {
        for (id, party) in parties.iter_mut().enumerate() {
            if !set_up[id] {
                set_up[id] = party.setup().is_ok();
            }
        }
    }
    let mut outputs: Vec<Option<Vec<u16>>> = vec![None; n];
    while outputs.iter().any(|output| output.is_none()) {
        for (id, party) in parties.iter_mut().enumerate() {
            if outputs[id].is_none() {
                outputs[id] = party.run().ok();
            }
        }
    }
    outputs.into_iter().map(Option::unwrap).collect()
}

#[test]
fn three_of_five_voters_carry_the_option() {
    let circuit = generate_circuit(5, 3, 1, 251);
    let outcome = vote(251, &circuit, 2, vec![vec![1], vec![0], vec![1], vec![1], vec![0]]);
    assert_eq!(outcome, vec![vec![1]; 5]);
}

#[test]
fn two_of_five_voters_do_not_carry_the_option() {
    let circuit = generate_circuit(5, 3, 1, 251);
    let outcome = vote(251, &circuit, 2, vec![vec![1], vec![0], vec![0], vec![1], vec![0]]);
    assert_eq!(outcome, vec![vec![0]; 5]);
}

#[test]
fn three_voters_on_two_options() {
    let circuit = generate_circuit(3, 2, 2, 251);
    let outcome = vote(251, &circuit, 1, vec![vec![1, 0], vec![1, 1], vec![0, 0]]);
    assert_eq!(outcome, vec![vec![1, 0]; 3]);
}

#[test]
fn the_outcome_counts_the_votes() {
    let circuit = generate_circuit(4, 2, 1, 251);
    for votes in 0u16..16 {
        let choices: Vec<Vec<u16>> = (0..4).map(|voter| vec![(votes >> voter) & 1]).collect();
        let expected = if votes.count_ones() >= 2 { 1 } else { 0 };
        assert_eq!(run(circuit.clone(), 251, choices), vec![expected]);
    }
}

#[test]
fn the_circuit_of_two_of_three_voters() {
    let circuit = generate_circuit(3, 2, 1, 251);
    assert!(circuit.is_well_formed());
    assert_eq!(circuit.get_n_parties(), 3);
    assert_eq!(circuit.size(), 20);
    assert_eq!(circuit.get_roots(), vec![19]);
    for voter in 0..3 {
        assert!(matches!(
            circuit.get_gate(voter),
            Gate::Input { party, circuit_id: 0, output: None } if *party == voter
        ));
    }
    // the pairs of voters
    assert!(matches!(circuit.get_gate(3), Gate::Mul { first: 0, second: 1, .. }));
    assert!(matches!(circuit.get_gate(4), Gate::Mul { first: 0, second: 2, .. }));
    assert!(matches!(circuit.get_gate(5), Gate::Mul { first: 1, second: 2, .. }));
    // two pairs at a time count with minus one
    assert!(matches!(circuit.get_gate(6), Gate::Mul { first: 3, second: 4, .. }));
    assert!(matches!(circuit.get_gate(7), Gate::MulByConst { first: 6, second: 250, .. }));
    assert!(matches!(circuit.get_gate(8), Gate::Mul { first: 3, second: 5, .. }));
    assert!(matches!(circuit.get_gate(9), Gate::MulByConst { first: 8, second: 250, .. }));
    assert!(matches!(circuit.get_gate(10), Gate::Mul { first: 4, second: 5, .. }));
    assert!(matches!(circuit.get_gate(11), Gate::MulByConst { first: 10, second: 250, .. }));
    // all three pairs
    assert!(matches!(circuit.get_gate(12), Gate::Mul { first: 3, second: 4, .. }));
    assert!(matches!(circuit.get_gate(13), Gate::Mul { first: 12, second: 5, .. }));
    // the sum of all
    assert!(matches!(circuit.get_gate(14), Gate::Add { first: 3, second: 4, .. }));
    assert!(matches!(circuit.get_gate(15), Gate::Add { first: 14, second: 5, .. }));
    assert!(matches!(circuit.get_gate(16), Gate::Add { first: 15, second: 7, .. }));
    assert!(matches!(circuit.get_gate(17), Gate::Add { first: 16, second: 9, .. }));
    assert!(matches!(circuit.get_gate(18), Gate::Add { first: 17, second: 11, .. }));
    assert!(matches!(circuit.get_gate(19), Gate::Add { first: 18, second: 13, .. }));
}

#[test]
fn small_votes() {
    // one voter: the output is its vote
    let circuit = generate_circuit(1, 1, 2, 13);
    assert_eq!(circuit.size(), 2);
    assert_eq!(circuit.get_roots(), vec![0, 1]);
    assert_eq!(run(circuit, 13, vec![vec![1, 0]]), vec![1, 0]);
    // all of three voters
    let circuit = generate_circuit(3, 3, 1, 13);
    assert_eq!(circuit.size(), 5);
    assert_eq!(run(circuit.clone(), 13, vec![vec![1], vec![1], vec![1]]), vec![1]);
    assert_eq!(run(circuit, 13, vec![vec![1], vec![0], vec![1]]), vec![0]);
    // any of three voters, in the smallest field
    let circuit = generate_circuit(3, 1, 1, 2);
    assert_eq!(run(circuit.clone(), 2, vec![vec![0], vec![0], vec![0]]), vec![0]);
    assert_eq!(run(circuit.clone(), 2, vec![vec![0], vec![1], vec![0]]), vec![1]);
    assert_eq!(run(circuit, 2, vec![vec![1], vec![1], vec![1]]), vec![1]);
    // no options
    let circuit = generate_circuit(3, 2, 0, 13);
    assert_eq!(circuit.size(), 0);
    assert_eq!(run(circuit, 13, vec![vec![], vec![], vec![]]), Vec::<u16>::new());
}
