//! Typed request kinds: a kind-name per payload type, with the response
//! payload type it comes back with.

use vstd::prelude::*;

verus! {

/// A request kind and its response type.
pub trait Request {
    type Response;

    /// The kind-name carried in the envelope's `request` field.
    fn name() -> &'static str;
}

/// A request kind this endpoint can serve.
pub trait IncomingRequest: Request {
}

/// A request kind this endpoint can send.
pub trait OutgoingRequest: Request {
}

} // verus!
