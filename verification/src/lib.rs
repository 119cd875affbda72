//! A multi-node message-passing overlay: endpoints exchange requests,
//! responses and notifications over framed byte transports, forwarding
//! through intermediate endpoints when no direct transport exists.
//!
//! The routing table ([`route::RouteSet`]), the wire envelope codec
//! ([`packet`]), the handler registry ([`registry`]), the pending-response
//! map ([`pending`]) and the dispatcher decisions ([`rpc`]) are verified;
//! the asynchronous shell (ports, tasks, channels) lives outside and drives
//! them with plain values.

use vstd::prelude::*;

pub mod connection;
pub mod error;
pub mod event;
pub mod internal;
pub mod kv;
pub mod notification;
pub mod packet;
pub mod pending;
pub mod polling;
pub mod registry;
pub mod request;
pub mod route;
pub mod rpc;
pub mod util;

verus! {

/// Addresses of the participating endpoints. The address universe is fixed
/// by the application; each process owns exactly one of them for its
/// lifetime.
#[derive(PartialEq, Eq, Structural, Clone, Copy, Debug, Hash)]
pub enum Address {
    Native,
    Background,
    Popup,
    Content,
    Injected,
}

/// Marker for the address type the overlay routes between.
pub trait AddressT {
}

impl AddressT for Address {
}

} // verus!
