//! The sending half of the channel between parties.

use vstd::prelude::*;

verus! {

/// Carries messages to one party.
pub trait ShareSender<Msg> {
    /// Sends a message on its way; nothing comes back.
    fn send(&mut self, msg: Msg);
}

} // verus!
