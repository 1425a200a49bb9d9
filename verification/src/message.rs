//! The messages that parties exchange.

use std::hash::Hash;
use std::hash::Hasher;
use vstd::prelude::*;

verus! {

/// A share on its way from one party to another, for one gate.
#[derive(Clone, Copy, Debug)]
pub struct Message<DataType> {
    from: usize,
    to: usize,
    gate: usize,
    share: DataType,
}

impl<DataType: Copy> Message<DataType> {
    /// The party that sent the message.
    pub closed spec fn sender(&self) -> usize {
        self.from
    }

    /// The party that the message is for.
    pub closed spec fn recipient(&self) -> usize {
        self.to
    }

    /// The index of the circuit entry that the share belongs to.
    pub closed spec fn gate_id(&self) -> usize {
        self.gate
    }

    /// The share that the message carries.
    pub closed spec fn payload(&self) -> DataType {
        self.share
    }

    /// Two messages with the same sender, recipient, gate and share are the
    /// same message.
    pub proof fn lemma_extensional(self, other: Self)
        requires
            self.sender() == other.sender(),
            self.recipient() == other.recipient(),
            self.gate_id() == other.gate_id(),
            self.payload() == other.payload(),
        ensures
            self == other,
    {
    }

    /// The message with these parts.
    pub closed spec fn composed(from: usize, to: usize, gate: usize, share: DataType) -> Self {
        Message { from, to, gate, share }
    }

    /// A composed message has the parts it was made of.
    pub proof fn lemma_composed(from: usize, to: usize, gate: usize, share: DataType)
        ensures
            Self::composed(from, to, gate, share).sender() == from,
            Self::composed(from, to, gate, share).recipient() == to,
            Self::composed(from, to, gate, share).gate_id() == gate,
            Self::composed(from, to, gate, share).payload() == share,
    {
    }

    pub fn new(from: usize, to: usize, gate: usize, share: DataType) -> (msg: Self)
        ensures
            msg == Self::composed(from, to, gate, share),
            msg.sender() == from,
            msg.recipient() == to,
            msg.gate_id() == gate,
            msg.payload() == share,
    {
        Message { from, to, gate, share }
    }

    pub fn get_from(&self) -> (from: usize)
        ensures
            from == self.sender(),
    {
        self.from
    }

    pub fn get_to(&self) -> (to: usize)
        ensures
            to == self.recipient(),
    {
        self.to
    }

    pub fn get_gate(&self) -> (gate: usize)
        ensures
            gate == self.gate_id(),
    {
        self.gate
    }

    pub fn get_share(&self) -> (share: DataType)
        ensures
            share == self.payload(),
    {
        self.share
    }
}

impl<DataType: Copy> PartialEq for Message<DataType> {
    /// Messages are told apart by sender, recipient and gate; the share does
    /// not count.
    fn eq(&self, other: &Self) -> (same: bool) {
        self.from == other.from && self.to == other.to && self.gate == other.gate
    }
}

impl<DataType: Copy> vstd::std_specs::cmp::PartialEqSpecImpl for Message<DataType> {
    open spec fn obeys_eq_spec() -> bool {
        true
    }

    open spec fn eq_spec(&self, other: &Self) -> bool {
        self.sender() == other.sender() && self.recipient() == other.recipient() && self.gate_id()
            == other.gate_id()
    }
}

impl<DataType: Copy> Eq for Message<DataType> {

}

/// `Hash::hash` of `usize`: feeds the number to the hasher. Nothing is claimed
/// of the hasher's state.
pub assume_specification<H: Hasher>[ <usize as Hash>::hash ](value: &usize, state: &mut H);

impl<DataType: Copy> Hash for Message<DataType> {
    /// Hashes what equality looks at: sender, recipient and gate.
    fn hash<H: Hasher>(&self, state: &mut H) {
        self.from.hash(state);
        self.to.hash(state);
        self.gate.hash(state);
    }
}

} // verus!
