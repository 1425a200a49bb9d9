use mpc::circuit::Circuit;
use mpc::field::Field;
use mpc::gate::Gate;
use mpc::message::Message;
use mpc::party::Party;
use mpc::progress::Halt;
use mpc::share_receiver::ShareReceiver;
use mpc::share_sender::ShareSender;
use std::cell::RefCell;
use std::collections::VecDeque;
use std::rc::Rc;

type Queue = Rc<RefCell<VecDeque<Message<u16>>>>;

struct QueueReceiver {
    queue: Queue,
}

impl ShareReceiver<Message<u16>> for QueueReceiver {
    fn recv(&mut self) -> Option<Message<u16>> {
        self.queue.borrow_mut().pop_front()
    }
}

struct QueueSender {
    queue: Queue,
}

impl ShareSender<Message<u16>> for QueueSender {
    fn send(&mut self, msg: Message<u16>) {
        self.queue.borrow_mut().push_back(msg);
    }
}

fn queues(n: usize) -> Vec<Queue> {
    (0..n).map(|_| Rc::new(RefCell::new(VecDeque::new()))).collect()
}

fn party(
    id: usize,
    secret: Vec<u16>,
    queues: &[Queue],
    order: u16,
    circuit: Circuit<u16>,
    threshold: usize,
) -> Party<u16> {
    let rx = Box::new(QueueReceiver { queue: queues[id].clone() });
    let txs: Vec<Box<dyn ShareSender<Message<u16>>>> = queues
        .iter()
        .map(|queue| Box::new(QueueSender { queue: queue.clone() }) as _)
        .collect();
    Party::new(id, secret, rx, txs, Field::new(order), circuit, threshold)
}

/// Runs every party in turn, each as far as its messages reach, until all
/// have their outputs.
fn simulate(order: u16, circuit: &Circuit<u16>, threshold: usize, secrets: Vec<Vec<u16>>) -> Vec<Vec<u16>> {
    let n = secrets.len();
    assert_eq!(n, circuit.get_n_parties() as usize);
    let queues = queues(n);
    let mut parties: Vec<Party<u16>> = secrets
        .into_iter()
        .enumerate()
        .map(|(id, secret)| party(id, secret, &queues, order, circuit.clone(), threshold))
        .collect();
    let mut set_up = vec![false; n];
    let mut rounds = 0;
    while set_up.iter().any(|done| !done) {
        for (id, party) in parties.iter_mut().enumerate() {
            if !set_up[id] {
                set_up[id] = party.setup().is_ok();
            }
        }
        rounds += 1;
        assert!(rounds < 1_000_000);
    }
    let mut outputs: Vec<Option<Vec<u16>>> = vec![None; n];
    while outputs.iter().any(|output| output.is_none()) {
        for (id, party) in parties.iter_mut().enumerate() {
            if outputs[id].is_none() {
                assert!(party.is_ready());
                outputs[id] = party.run().ok();
            }
        }
        rounds += 1;
        assert!(rounds < 1_000_000);
    }
    for queue in &queues {
        assert!(queue.borrow().is_empty());
    }
    outputs.into_iter().map(Option::unwrap).collect()
}

fn product_circuit(n: u16) -> Circuit<u16> {
    let mut circuit = Circuit::new(n);
    let a = circuit.add(Gate::new_input(0, 0));
    let b = circuit.add(Gate::new_input(1, 0));
    let product = circuit.add(Gate::new_mul(a, b));
    circuit.set_roots(vec![product]);
    circuit
}

#[test]
fn test_party_new() {
    let queue: Queue = Rc::new(RefCell::new(VecDeque::new()));
    let rx = QueueReceiver { queue: queue.clone() };
    let tx = QueueSender { queue: queue.clone() };

    let mut circuit = Circuit::new(1);
    let input = circuit.add(Gate::<u16>::new_input(0, 0));
    circuit.set_roots(vec![input]);
    let mut party =
        Party::new(0, vec![1u16], Box::new(rx), vec![Box::new(tx)], Field::new(97u16), circuit, 1);
    assert!(party.is_ready());
    assert!(party.setup().is_ok());
    // one share of a polynomial of degree one does not give the secret away
    let outputs = party.run().unwrap();
    assert_eq!(outputs.len(), 1);
    assert!(outputs[0] < 97);
    assert!(queue.borrow().is_empty());
}

#[test]
fn a_single_party_with_threshold_zero_gets_its_input() {
    let queues = queues(1);
    let mut circuit = Circuit::new(1);
    let input = circuit.add(Gate::<u16>::new_input(0, 0));
    circuit.set_roots(vec![input]);
    let mut only = party(0, vec![1], &queues, 97, circuit, 0);
    assert_eq!(only.run().unwrap(), vec![1u16]);
}

#[test]
fn product_of_seven_and_eight_modulo_thirteen() {
    let circuit = product_circuit(3);
    for _ in 0..20 {
        let outputs = simulate(13, &circuit, 1, vec![vec![7], vec![8], vec![0]]);
        assert_eq!(outputs, vec![vec![4], vec![4], vec![4]]);
    }
}

#[test]
fn multiplication_reconstructs_the_product() {
    for (order, threshold, n) in [(13u16, 1usize, 3u16), (251, 1, 3), (251, 2, 5), (251, 1, 4), (251, 0, 2), (251, 3, 7)] {
        let circuit = product_circuit(n);
        for (a, b) in [(0u16, 0u16), (1, 1), (2, 3), (7, 8), (12, 12), (order - 1, order - 1), (order - 1, 2), (5, 0)] {
            let mut secrets = vec![vec![0u16]; n as usize];
            secrets[0] = vec![a];
            secrets[1] = vec![b];
            let expected = ((a as u32 * b as u32) % order as u32) as u16;
            let outputs = simulate(order, &circuit, threshold, secrets);
            assert_eq!(outputs, vec![vec![expected]; n as usize]);
        }
    }
}

#[test]
fn sums_constants_and_several_outputs() {
    // (a + b) * 3, a * b + c and c itself, over three parties
    let mut circuit = Circuit::new(3);
    let a = circuit.add(Gate::new_input(0, 0));
    let b = circuit.add(Gate::new_input(1, 0));
    let c = circuit.add(Gate::new_input(2, 1));
    let sum = circuit.add(Gate::new_add(a, b));
    let scaled = circuit.add(Gate::new_mul_by_const(sum, 3));
    let product = circuit.add(Gate::new_mul(a, b));
    let total = circuit.add(Gate::new_add(product, c));
    circuit.set_roots(vec![scaled, total, c]);
    let outputs = simulate(251, &circuit, 1, vec![vec![100], vec![50], vec![0, 249]]);
    assert_eq!(outputs, vec![vec![199, (100 * 50 + 249) % 251, 249]; 3]);
}

#[test]
fn a_chain_of_products() {
    // a * b * c * a over three parties
    let mut circuit = Circuit::new(3);
    let a = circuit.add(Gate::new_input(0, 0));
    let b = circuit.add(Gate::new_input(1, 0));
    let c = circuit.add(Gate::new_input(2, 0));
    let ab = circuit.add(Gate::new_mul(a, b));
    let abc = circuit.add(Gate::new_mul(ab, c));
    let all = circuit.add(Gate::new_mul(abc, a));
    circuit.set_roots(vec![all]);
    let outputs = simulate(251, &circuit, 1, vec![vec![6], vec![7], vec![9]]);
    assert_eq!(outputs, vec![vec![(6 * 7 * 9 * 6) % 251]; 3]);
}

#[test]
fn a_single_party_needs_no_messages() {
    let mut circuit = Circuit::new(1);
    let a = circuit.add(Gate::new_input(0, 0));
    let b = circuit.add(Gate::new_input(0, 1));
    let product = circuit.add(Gate::new_mul(a, b));
    let sum = circuit.add(Gate::new_add(product, a));
    circuit.set_roots(vec![sum, product]);
    let outputs = simulate(13, &circuit, 0, vec![vec![5, 6]]);
    assert_eq!(outputs, vec![vec![(30 + 5) % 13, 30 % 13]]);
}

#[test]
fn a_circuit_with_products_is_not_ready_before_setup() {
    let queues = queues(3);
    let mut first = party(0, vec![7], &queues, 13, product_circuit(3), 1);
    assert!(!first.is_ready());
    // the others have sent nothing yet: the setup waits
    assert!(matches!(first.setup(), Err(Halt::Starved)));
    assert!(!first.is_ready());
    assert_eq!(queues[1].borrow().len(), 1);
    assert_eq!(queues[2].borrow().len(), 1);
    assert!(queues[0].borrow().is_empty());
    let sent = queues[1].borrow()[0];
    assert_eq!((sent.get_from(), sent.get_to(), sent.get_gate()), (0, 1, 2));
    assert!(sent.get_share() < 13);
}

#[test]
fn evaluation_waits_for_the_share_of_another_party() {
    let mut circuit = Circuit::new(2);
    let theirs = circuit.add(Gate::new_input(1, 0));
    let twice = circuit.add(Gate::new_mul_by_const(theirs, 2));
    circuit.set_roots(vec![twice]);
    let queues = queues(2);
    let mut first = party(0, vec![], &queues, 13, circuit, 0);
    assert!(first.setup().is_ok());
    assert!(matches!(first.run(), Err(Halt::Starved)));
    assert!(matches!(first.run(), Err(Halt::Starved)));
    // the input share of party 1, then its share of the output
    queues[0].borrow_mut().push_back(Message::new(1, 0, 0, 5));
    assert!(matches!(first.run(), Err(Halt::Starved)));
    let sent = queues[1].borrow_mut().pop_front().unwrap();
    assert_eq!((sent.get_from(), sent.get_to(), sent.get_gate(), sent.get_share()), (0, 1, 2, 10));
    queues[0].borrow_mut().push_back(Message::new(1, 0, 2, 10));
    // 2 * 10 - 1 * 10 modulo 13
    assert_eq!(first.run().unwrap(), vec![10]);
    assert_eq!(first.run().unwrap(), vec![10]);
}

#[test]
fn a_message_that_came_early_is_kept_for_later() {
    let queues = queues(2);
    let mut first = party(0, vec![1], &queues, 13, product_circuit(2), 1);
    queues[0].borrow_mut().push_back(Message::new(1, 0, 5, 50));
    queues[0].borrow_mut().push_back(Message::new(1, 0, 3, 30));
    let third = first.safe_recv(3).unwrap();
    assert_eq!((third.get_from(), third.get_to(), third.get_gate(), third.get_share()), (1, 0, 3, 30));
    assert!(queues[0].borrow().is_empty());
    let fifth = first.safe_recv(5).unwrap();
    assert_eq!((fifth.get_from(), fifth.get_to(), fifth.get_gate(), fifth.get_share()), (1, 0, 5, 50));
    assert!(first.safe_recv(5).is_none());
    assert!(first.safe_recv(3).is_none());
}

#[test]
fn kept_messages_come_out_oldest_first() {
    let queues = queues(3);
    let mut first = party(0, vec![1], &queues, 13, product_circuit(3), 1);
    for msg in [
        Message::new(1, 0, 4, 41),
        Message::new(2, 0, 4, 42),
        Message::new(1, 0, 4, 43),
        Message::new(1, 2, 9, 1),
        Message::new(7, 0, 9, 2),
        Message::new(2, 0, 9, 3),
    ] {
        queues[0].borrow_mut().push_back(msg);
    }
    // not the message for another party; the sender does not matter
    assert_eq!(first.safe_recv(9).unwrap().get_share(), 2);
    assert_eq!(queues[0].borrow().len(), 1);
    assert_eq!(first.safe_recv(9).unwrap().get_share(), 3);
    assert!(queues[0].borrow().is_empty());
    assert_eq!(first.safe_recv(4).unwrap().get_share(), 41);
    assert_eq!(first.safe_recv(4).unwrap().get_share(), 42);
    assert_eq!(first.safe_recv(4).unwrap().get_share(), 43);
    assert!(first.safe_recv(4).is_none());
    assert!(first.safe_recv(9).is_none());
}

#[test]
fn buffer_functions() {
    let mut past: Vec<Message<u16>> = vec![
        Message::new(1, 0, 5, 50),
        Message::new(1, 0, 3, 30),
        Message::new(2, 0, 3, 31),
    ];
    assert!(Party::accept(&mut past, Message::new(2, 0, 5, 51), 0, 3).is_none());
    assert_eq!(past.len(), 4);
    let direct = Party::accept(&mut past, Message::new(2, 0, 3, 32), 0, 3).unwrap();
    assert_eq!(direct.get_share(), 32);
    assert_eq!(past.len(), 4);
    assert_eq!(Party::take_buffered(&mut past, 0, 3).unwrap().get_share(), 30);
    assert_eq!(
        past.iter().map(|msg| msg.get_share()).collect::<Vec<u16>>(),
        vec![50, 31, 51]
    );
    assert!(Party::take_buffered(&mut past, 1, 3).is_none());
    assert!(Party::take_buffered(&mut past, 0, 4).is_none());
    assert_eq!(past.len(), 3);
    let mut gathered = vec![0u16, 0, 0];
    Party::record(&mut gathered, Message::new(2, 0, 3, 31));
    assert_eq!(gathered, vec![0, 0, 31]);
}

#[test]
fn messages_are_told_apart_by_sender_recipient_and_gate() {
    assert!(Message::new(1, 2, 3, 4u16) == Message::new(1, 2, 3, 5u16));
    assert!(Message::new(1, 2, 3, 4u16) != Message::new(0, 2, 3, 4u16));
    assert!(Message::new(1, 2, 3, 4u16) != Message::new(1, 0, 3, 4u16));
    assert!(Message::new(1, 2, 3, 4u16) != Message::new(1, 2, 0, 4u16));
    let mut set = std::collections::HashSet::new();
    assert!(set.insert(Message::new(1, 2, 3, 4u16)));
    assert!(!set.insert(Message::new(1, 2, 3, 9u16)));
    assert!(set.insert(Message::new(1, 2, 4, 4u16)));
}

#[test]
fn local_gates_on_known_outputs() {
    let queues = queues(1);
    let mut circuit = Circuit::new(1);
    let a = circuit.add(Gate::new_input(0, 0));
    circuit.set_roots(vec![a]);
    let only = party(0, vec![1], &queues, 13, circuit, 0);
    let mut left = Gate::<u16>::new_input(0, 0);
    let mut right = Gate::<u16>::new_input(0, 1);
    left.set_output(7);
    right.set_output(8);
    assert_eq!(only.process_add(5, &left, &right), 2);
    assert_eq!(only.process_mul_by_const(5, &left, 8), 4);
    assert_eq!(only.process_mul_by_const(5, &right, 12), 5);
}

#[test]
fn parts_that_do_not_fit_are_not_accepted() {
    let field = Field::new(13u16);
    let circuit = product_circuit(3);
    assert!(Party::accepts(0, &vec![7u16], 3, &field, &circuit, 1));
    assert!(Party::accepts(2, &Vec::<u16>::new(), 3, &field, &circuit, 1));
    assert!(Party::accepts(0, &vec![7u16], 5, &field, &circuit, 0));
    // the party is none of the three
    assert!(!Party::accepts(3, &vec![7u16], 3, &field, &circuit, 1));
    // a channel is missing
    assert!(!Party::accepts(0, &vec![7u16], 2, &field, &circuit, 1));
    // the party has no input for its gate
    assert!(!Party::accepts(0, &Vec::<u16>::new(), 3, &field, &circuit, 1));
    assert!(!Party::accepts(1, &Vec::<u16>::new(), 3, &field, &circuit, 1));
    // twice the threshold does not fit
    assert!(!Party::accepts(0, &vec![7u16], 3, &field, &circuit, usize::MAX / 2 + 1));

    // an input of a party that the circuit does not have
    let mut stray = Circuit::<u16>::new(2);
    let input = stray.add(Gate::new_input(2, 0));
    assert!(Party::accepts(0, &vec![7u16], 2, &field, &stray, 1));
    stray.set_roots(vec![input]);
    assert!(!Party::accepts(0, &vec![7u16], 2, &field, &stray, 1));

    // operands behind their gates
    let mut forward = Circuit::<u16>::new(2);
    forward.add(Gate::new_add(1, 1));
    forward.add(Gate::new_input(0, 0));
    assert!(!Party::accepts(0, &vec![7u16], 2, &field, &forward, 1));

    // more parties than the elements have evaluation points for
    let mut crowded = Circuit::<u8>::new(300);
    let input = crowded.add(Gate::new_input(0, 0));
    crowded.set_roots(vec![input]);
    assert!(!Party::accepts(0, &vec![7u8], 300, &Field::new(13u8), &crowded, 1));
}

#[test]
fn a_party_hands_out_shares_of_its_input() {
    let queues = queues(3);
    let mut circuit = Circuit::new(3);
    let input = circuit.add(Gate::new_input(0, 0));
    circuit.set_roots(vec![input]);
    let mut first = party(0, vec![9], &queues, 13, circuit, 1);
    assert!(first.setup().is_ok());
    assert!(matches!(first.run(), Err(Halt::Starved)));
    // a line through 9 at zero: the shares at 1, 2 and 3 are evenly spaced
    let second = queues[1].borrow()[0];
    let third = queues[2].borrow()[0];
    assert_eq!((second.get_from(), second.get_to(), second.get_gate()), (0, 1, 0));
    assert_eq!((third.get_from(), third.get_to(), third.get_gate()), (0, 2, 0));
    let slope = (second.get_share() + 13 - 9 + 13 * 6) * 7 % 13;
    assert_eq!((9 + 2 * slope) % 13, second.get_share() % 13);
    assert_eq!((9 + 3 * slope) % 13, third.get_share() % 13);
    // then its share of the output goes to both
    assert_eq!(queues[1].borrow().len(), 2);
    let output = queues[1].borrow()[1];
    assert_eq!((output.get_from(), output.get_to(), output.get_gate()), (0, 1, 1));
    assert_eq!(output.get_share(), (9 + slope) % 13);
}

#[test]
fn a_kept_message_of_any_sender_is_handed_back() {
    let queues = queues(3);
    let mut circuit = Circuit::new(3);
    let input = circuit.add(Gate::new_input(0, 0));
    circuit.set_roots(vec![input]);
    let mut first = party(0, vec![9], &queues, 13, circuit, 1);
    // sender 7 is none of the three parties
    queues[0].borrow_mut().push_back(Message::new(7, 0, 4, 40));
    queues[0].borrow_mut().push_back(Message::new(1, 0, 5, 50));
    assert_eq!(first.safe_recv(5).unwrap().get_share(), 50);
    // the message for 4 is kept back, and found without a message arriving
    assert!(queues[0].borrow().is_empty());
    let kept = first.safe_recv(4).unwrap();
    assert_eq!((kept.get_from(), kept.get_share()), (7, 40));
    assert!(first.safe_recv(4).is_none());
}

#[test]
fn a_message_of_a_stranger_stops_a_broadcast() {
    let queues = queues(3);
    let mut circuit = Circuit::new(3);
    let input = circuit.add(Gate::new_input(0, 0));
    circuit.set_roots(vec![input]);
    let mut first = party(0, vec![9], &queues, 13, circuit, 1);
    assert!(first.setup().is_ok());
    // the output is broadcast under the number of gates, 1
    queues[0].borrow_mut().push_back(Message::new(1, 0, 1, 3));
    queues[0].borrow_mut().push_back(Message::new(5, 0, 1, 4));
    match first.run() {
        Err(Halt::Stranger { msg }) => {
            assert_eq!((msg.get_from(), msg.get_to(), msg.get_gate(), msg.get_share()), (5, 0, 1, 4));
        },
        _ => panic!("the message of a stranger was not reported"),
    }
    // the broadcast goes on where it was
    assert!(matches!(first.run(), Err(Halt::Starved)));
    queues[0].borrow_mut().push_back(Message::new(2, 0, 1, 5));
    assert!(first.run().is_ok());
}

#[test]
fn setup_without_products_sends_and_takes_nothing() {
    let queues = queues(2);
    let mut circuit = Circuit::new(2);
    let mine = circuit.add(Gate::new_input(0, 0));
    let theirs = circuit.add(Gate::new_input(1, 0));
    let sum = circuit.add(Gate::new_add(mine, theirs));
    // a product that no root depends on
    circuit.add(Gate::new_mul(mine, theirs));
    circuit.set_roots(vec![sum]);
    let mut first = party(0, vec![4], &queues, 13, circuit, 0);
    queues[0].borrow_mut().push_back(Message::new(1, 0, 1, 6));
    assert!(first.setup().is_ok());
    assert!(first.is_ready());
    assert_eq!(queues[0].borrow().len(), 1);
    assert!(queues[1].borrow().is_empty());
}

#[test]
fn a_single_party_sends_and_takes_nothing() {
    let queues = queues(1);
    let mut circuit = Circuit::new(1);
    let input = circuit.add(Gate::new_input(0, 0));
    let scaled = circuit.add(Gate::new_mul_by_const(input, 12));
    circuit.set_roots(vec![scaled, input]);
    let mut only = party(0, vec![7], &queues, 13, circuit, 0);
    queues[0].borrow_mut().push_back(Message::new(0, 0, 0, 1));
    assert!(only.setup().is_ok());
    assert_eq!(only.run().unwrap(), vec![6, 7]);
    assert_eq!(queues[0].borrow().len(), 1);
}

#[test]
fn a_run_sends_one_block_for_each_input_product_and_output() {
    let queues = queues(3);
    let mut circuit = Circuit::new(3);
    let mine = circuit.add(Gate::new_input(0, 0));
    let theirs = circuit.add(Gate::new_input(1, 0));
    let sum = circuit.add(Gate::new_add(mine, theirs));
    // an input that no root depends on takes no message
    circuit.add(Gate::new_input(2, 0));
    circuit.set_roots(vec![sum]);
    let mut first = party(0, vec![4], &queues, 13, circuit, 1);
    assert!(first.setup().is_ok());
    queues[0].borrow_mut().push_back(Message::new(1, 0, 1, 6));
    // the output is broadcast under the number of gates evaluated, 3
    queues[0].borrow_mut().push_back(Message::new(1, 0, 3, 2));
    queues[0].borrow_mut().push_back(Message::new(2, 0, 3, 7));
    assert!(first.run().is_ok());
    // two blocks, for its input and for the output, of one message to each
    // other party; three messages taken
    assert_eq!(queues[1].borrow().len(), 2);
    assert_eq!(queues[2].borrow().len(), 2);
    assert!(queues[0].borrow().is_empty());
    let gates: Vec<usize> = queues[1].borrow().iter().map(|msg| msg.get_gate()).collect();
    assert_eq!(gates, vec![0, 3]);
}

#[test]
fn a_setup_sends_and_takes_two_sharings_for_each_product() {
    let queues = queues(3);
    let mut first = party(0, vec![7], &queues, 13, product_circuit(3), 1);
    for (from, share) in [(1, 3), (2, 5), (2, 8), (1, 11)] {
        queues[0].borrow_mut().push_back(Message::new(from, 0, 2, share));
    }
    // the share of an input, which the setup does not wait for
    queues[0].borrow_mut().push_back(Message::new(1, 0, 1, 4));
    assert!(first.setup().is_ok());
    assert!(first.is_ready());
    assert_eq!(queues[1].borrow().len(), 2);
    assert_eq!(queues[2].borrow().len(), 2);
    assert!(queues[1].borrow().iter().all(|msg| msg.get_gate() == 2 && msg.get_from() == 0));
    // four messages taken; the fifth was not asked for and is still to come
    assert_eq!(queues[0].borrow().len(), 1);
}

struct WatchingReceiver {
    queue: Queue,
    others: Vec<Queue>,
    seen: Rc<RefCell<Vec<usize>>>,
}

impl ShareReceiver<Message<u16>> for WatchingReceiver {
    fn recv(&mut self) -> Option<Message<u16>> {
        let sent: usize = self.others.iter().map(|queue| queue.borrow().len()).sum();
        self.seen.borrow_mut().push(sent);
        self.queue.borrow_mut().pop_front()
    }
}

#[test]
fn a_broadcast_sends_to_every_other_party_before_it_receives() {
    let queues = queues(3);
    let mut circuit = Circuit::new(3);
    let input = circuit.add(Gate::new_input(0, 0));
    circuit.set_roots(vec![input]);
    let seen = Rc::new(RefCell::new(Vec::new()));
    let rx = Box::new(WatchingReceiver {
        queue: queues[0].clone(),
        others: vec![queues[1].clone(), queues[2].clone()],
        seen: seen.clone(),
    });
    let txs: Vec<Box<dyn ShareSender<Message<u16>>>> = queues
        .iter()
        .map(|queue| Box::new(QueueSender { queue: queue.clone() }) as _)
        .collect();
    let mut first = Party::new(0, vec![9], rx, txs, Field::new(13u16), circuit, 1);
    assert!(first.setup().is_ok());
    queues[0].borrow_mut().push_back(Message::new(1, 0, 1, 3));
    queues[0].borrow_mut().push_back(Message::new(2, 0, 1, 5));
    assert!(first.run().is_ok());
    // the sharing of the input and the share of the output, to both others,
    // were on their way when the first message was asked for
    assert_eq!(*seen.borrow(), vec![4, 4]);
    // every message went to the channel of its recipient, none to the party
    assert!(queues[0].borrow().is_empty());
    assert!(queues[1].borrow().iter().all(|msg| msg.get_to() == 1 && msg.get_from() == 0));
    assert!(queues[2].borrow().iter().all(|msg| msg.get_to() == 2 && msg.get_from() == 0));
}
