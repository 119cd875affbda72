//! What a polling stream yields: the notification (or request) as it
//! arrived, with its origin. The typed decoding, the response duty of a
//! polling request and the stream plumbing live with the application.

use vstd::prelude::*;

use crate::Address;

verus! {

/// One notification pulled from a polling stream.
pub struct PollingNotification {
    from: Address,
    data: Vec<u8>,
}

impl PollingNotification {
    /// The endpoint it came from.
    pub closed spec fn from_spec(&self) -> Address {
        self.from
    }

    /// The frame it arrived in.
    pub closed spec fn data_spec(&self) -> Seq<u8> {
        self.data@
    }

    /// Package a received notification for the stream's consumer.
    pub fn new(from: Address, data: Vec<u8>) -> (r: Self)
        ensures
            r.from_spec() == from,
            r.data_spec() == data@,
    {
        PollingNotification { from, data }
    }

    /// The endpoint the notification came from.
    pub fn from(&self) -> (r: Address)
        ensures
            r == self.from_spec(),
    {
        self.from
    }

    /// The notification's frame, payload fields included.
    pub fn data(&self) -> (r: &Vec<u8>)
        ensures
            r@ == self.data_spec(),
    {
        &self.data
    }
}

} // verus!
