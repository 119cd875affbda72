//! The error surface: the one error that ships across the wire is a plain
//! message string; everything structured is rendered into it.

use vstd::prelude::*;

verus! {

/// The error a response envelope carries: just a message.
#[derive(Debug)]
pub struct ResponseError(pub Vec<u8>);

/// A polling request was handed to a slot whose consumer is gone.
#[derive(Clone, Copy, Debug)]
pub struct ListenerForYourRequestHasBeenDeadError;

/// Marker for an application error type that can cross the wire as a
/// `ResponseError`.
pub trait ErrorT {
}

} // verus!
