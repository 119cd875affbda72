//! The one queue the event loop drains: inbound frames, link endings,
//! outbound messages, and the route events the table reports.

use vstd::prelude::*;

use crate::connection::{ConnectionEnding, ConnectionMessage};
use crate::packet::OutgoingMessage;
use crate::route::{ConnectionAdded, ConnectionRemoved, MinRttUpdated, ViaListSeconded,
    ViaListUnseconded};

verus! {

/// Everything the dispatcher processes, one at a time.
pub enum RootEvent {
    ConnectionMessage(ConnectionMessage),
    ConnectionEnding(ConnectionEnding),
    OutgoingMessage(OutgoingMessage),
    MinRttUpdated(MinRttUpdated),
    ViaListSeconded(ViaListSeconded),
    ViaListUnseconded(ViaListUnseconded),
    ConnectionAdded(ConnectionAdded),
    ConnectionRemoved(ConnectionRemoved),
}

} // verus!
