//! The receiving half of the channel between parties.

use vstd::prelude::*;

verus! {

/// Hands over the messages that arrive for a party, in the order of their
/// arrival.
pub trait ShareReceiver<Msg> {
    /// The next message, or `None` when the channel has none to give. A
    /// channel that waits for messages returns `None` only when it gives up.
    fn recv(&mut self) -> Option<Msg>;
}

} // verus!
