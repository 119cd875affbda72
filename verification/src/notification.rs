//! Typed notification kinds: a kind-name per payload type. The typed
//! encoding and decoding live with the application; the library routes by
//! the name alone.

use vstd::prelude::*;

verus! {

/// A notification kind: fire-and-forget, no response.
pub trait Notification {
    /// The kind-name carried in the envelope's `request` field.
    fn name() -> &'static str;
}

/// A notification kind this endpoint can send.
pub trait OutgoingNotification: Notification {
}

/// A notification kind this endpoint can serve.
pub trait IncomingNotification: Notification {
}

} // verus!
