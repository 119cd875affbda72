//! What a live transport reports into the event loop: frames, and the end
//! of the stream.

use vstd::prelude::*;

use crate::Address;

verus! {

/// One frame, as received from the direct peer that sent it (which need
/// not be the endpoint the frame originally came from).
pub struct ConnectionMessage {
    pub packet_source: Address,
    pub message: Vec<u8>,
}

/// A transport reached its end; the direct link is gone.
#[derive(PartialEq, Eq, Structural, Clone, Copy, Debug)]
pub struct ConnectionEnding {
    pub from: Address,
}

} // verus!
