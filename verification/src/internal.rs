//! The internal route protocol: turning route events into `AddForwarded`,
//! `RemoveForwarded` and `UpdatedForwardedRtt` notifications for the right
//! direct peers, and the receipt rule for applying a peer's notification
//! to the local table.

use vstd::prelude::*;

use crate::Address;
use crate::route::{ConnectionAdded, ConnectionRemoved, MinRtt, MinRttUpdated, Rtt, Via,
    ViaListSeconded, ViaListUnseconded};

verus! {

/// Tell a neighbor that a destination is reachable through us at a cost.
#[derive(PartialEq, Clone, Copy, Debug)]
pub struct AddForwarded {
    pub to: Address,
    pub rtt: Rtt,
}

/// Tell a neighbor that a destination is no longer reachable through us.
#[derive(PartialEq, Clone, Copy, Debug)]
pub struct RemoveForwarded {
    pub to: Address,
}

/// Tell a neighbor that the cost of a destination through us changed.
#[derive(PartialEq, Clone, Copy, Debug)]
pub struct UpdatedForwardedRtt {
    pub to: Address,
    pub rtt: Rtt,
}

/// What a summary change means for one neighbor: the new minimum, unless
/// the minimum's route goes through that very neighbor, in which case the
/// second-best; nothing at all when the side that matters did not change,
/// or when there is no second-best to offer.
pub open spec fn spec_update_for(u: MinRttUpdated, address: Address) -> Option<
    UpdatedForwardedRtt,
> {
    let via_is_this = Via::Address(address) == u.rtt.via;
    if !via_is_this {
        if u.first_changed {
            Some(UpdatedForwardedRtt { to: u.for_address, rtt: u.rtt.rtt })
        } else {
            None
        }
    } else {
        match u.rtt.second_best {
            Some(sb) => if u.second_changed {
                Some(UpdatedForwardedRtt { to: u.for_address, rtt: sb })
            } else {
                None
            },
            None => None,
        }
    }
}

impl MinRttUpdated {
    /// The cost notification this change owes the neighbor `address`.
    pub fn update_for(&self, address: Address) -> (r: Option<UpdatedForwardedRtt>)
        ensures
            r == spec_update_for(*self, address),
    {
        let via_is_this = match self.rtt.via {
            Via::Address(a) => a == address,
            Via::Direct => false,
        };
        let rtt = if !via_is_this {
            self.rtt.rtt
        } else {
            match self.rtt.second_best {
                Some(rtt) => rtt,
                None => {
                    return None;
                },
            }
        };
        let is_updated = if via_is_this {
            self.second_changed
        } else {
            self.first_changed
        };
        if !is_updated {
            return None;
        }
        Some(UpdatedForwardedRtt { to: self.for_address, rtt })
    }
}

/// The neighbors a `ConnectionAdded` is announced to: every direct peer
/// except the destination itself and the peer the new route goes through.
pub open spec fn added_fanout(conns: Seq<Address>, e: ConnectionAdded) -> Seq<(
    Address,
    AddForwarded,
)>
    decreases conns.len(),
{
    if conns.len() == 0 {
        Seq::empty()
    } else {
        let prev = added_fanout(conns.drop_last(), e);
        let c = conns.last();
        if c != e.to && e.via != Via::Address(c) {
            prev + seq![(c, AddForwarded { to: e.to, rtt: e.rtt })]
        } else {
            prev
        }
    }
}

/// The neighbors a `ConnectionRemoved` is announced to, symmetrically.
pub open spec fn removed_fanout(conns: Seq<Address>, e: ConnectionRemoved) -> Seq<(
    Address,
    RemoveForwarded,
)>
    decreases conns.len(),
{
    if conns.len() == 0 {
        Seq::empty()
    } else {
        let prev = removed_fanout(conns.drop_last(), e);
        let c = conns.last();
        if c != e.to && e.via != Via::Address(c) {
            prev + seq![(c, RemoveForwarded { to: e.to })]
        } else {
            prev
        }
    }
}

/// The single neighbor a `ViaListSeconded` is announced to: the one the
/// initial via went through, which could not be told before.
pub open spec fn seconded_fanout(conns: Seq<Address>, e: ViaListSeconded) -> Seq<(
    Address,
    AddForwarded,
)>
    decreases conns.len(),
{
    if conns.len() == 0 {
        Seq::empty()
    } else {
        let prev = seconded_fanout(conns.drop_last(), e);
        let c = conns.last();
        if e.initial_via == Via::Address(c) {
            prev + seq![(c, AddForwarded { to: e.for_connection, rtt: e.rtt })]
        } else {
            prev
        }
    }
}

/// The single neighbor a `ViaListUnseconded` is announced to.
pub open spec fn unseconded_fanout(conns: Seq<Address>, e: ViaListUnseconded) -> Seq<(
    Address,
    RemoveForwarded,
)>
    decreases conns.len(),
{
    if conns.len() == 0 {
        Seq::empty()
    } else {
        let prev = unseconded_fanout(conns.drop_last(), e);
        let c = conns.last();
        if e.only_via == Via::Address(c) {
            prev + seq![(c, RemoveForwarded { to: e.for_connection })]
        } else {
            prev
        }
    }
}

/// The cost notifications a `MinRttUpdated` owes each neighbor.
pub open spec fn min_updated_fanout(conns: Seq<Address>, e: MinRttUpdated) -> Seq<(
    Address,
    UpdatedForwardedRtt,
)>
    decreases conns.len(),
{
    if conns.len() == 0 {
        Seq::empty()
    } else {
        let prev = min_updated_fanout(conns.drop_last(), e);
        let c = conns.last();
        match spec_update_for(e, c) {
            Some(u) => prev + seq![(c, u)],
            None => prev,
        }
    }
}

/// Announce a newly reachable destination to the neighbors it concerns.
pub fn fanout_added(conns: &Vec<Address>, e: ConnectionAdded) -> (r: Vec<(Address, AddForwarded)>)
    ensures
        r@ == added_fanout(conns@, e),
{
    let mut r: Vec<(Address, AddForwarded)> = Vec::new();
    let n = conns.len();
    let mut i: usize = 0;
    while i < n
        invariant
            n == conns@.len(),
            0 <= i <= n,
            r@ == added_fanout(conns@.take(i as int), e),
        decreases n - i,
    {
        let c = conns[i];
        proof {
            assert(conns@.take(i + 1).drop_last() =~= conns@.take(i as int));
            assert(conns@.take(i + 1).last() == conns@[i as int]);
        }
        let skip = c == e.to || match e.via {
            Via::Address(a) => a == c,
            Via::Direct => false,
        };
        if !skip {
            r.push((c, AddForwarded { to: e.to, rtt: e.rtt }));
        }
        i += 1;
    }
    proof {
        assert(conns@.take(n as int) =~= conns@);
    }
    r
}

/// Announce a no-longer-reachable destination to the neighbors it
/// concerns.
pub fn fanout_removed(conns: &Vec<Address>, e: ConnectionRemoved) -> (r: Vec<(
    Address,
    RemoveForwarded,
)>)
    ensures
        r@ == removed_fanout(conns@, e),
{
    let mut r: Vec<(Address, RemoveForwarded)> = Vec::new();
    let n = conns.len();
    let mut i: usize = 0;
    while i < n
        invariant
            n == conns@.len(),
            0 <= i <= n,
            r@ == removed_fanout(conns@.take(i as int), e),
        decreases n - i,
    {
        let c = conns[i];
        proof {
            assert(conns@.take(i + 1).drop_last() =~= conns@.take(i as int));
            assert(conns@.take(i + 1).last() == conns@[i as int]);
        }
        let skip = c == e.to || match e.via {
            Via::Address(a) => a == c,
            Via::Direct => false,
        };
        if !skip {
            r.push((c, RemoveForwarded { to: e.to }));
        }
        i += 1;
    }
    proof {
        assert(conns@.take(n as int) =~= conns@);
    }
    r
}

/// Announce an alternate route to the neighbor the first one went through.
pub fn fanout_seconded(conns: &Vec<Address>, e: ViaListSeconded) -> (r: Vec<(
    Address,
    AddForwarded,
)>)
    ensures
        r@ == seconded_fanout(conns@, e),
{
    let mut r: Vec<(Address, AddForwarded)> = Vec::new();
    let n = conns.len();
    let mut i: usize = 0;
    while i < n
        invariant
            n == conns@.len(),
            0 <= i <= n,
            r@ == seconded_fanout(conns@.take(i as int), e),
        decreases n - i,
    {
        let c = conns[i];
        proof {
            assert(conns@.take(i + 1).drop_last() =~= conns@.take(i as int));
            assert(conns@.take(i + 1).last() == conns@[i as int]);
        }
        let hit = match e.initial_via {
            Via::Address(a) => a == c,
            Via::Direct => false,
        };
        if hit {
            r.push((c, AddForwarded { to: e.for_connection, rtt: e.rtt }));
        }
        i += 1;
    }
    proof {
        assert(conns@.take(n as int) =~= conns@);
    }
    r
}

/// Withdraw the route from the neighbor the remaining via goes through.
pub fn fanout_unseconded(conns: &Vec<Address>, e: ViaListUnseconded) -> (r: Vec<(
    Address,
    RemoveForwarded,
)>)
    ensures
        r@ == unseconded_fanout(conns@, e),
{
    let mut r: Vec<(Address, RemoveForwarded)> = Vec::new();
    let n = conns.len();
    let mut i: usize = 0;
    while i < n
        invariant
            n == conns@.len(),
            0 <= i <= n,
            r@ == unseconded_fanout(conns@.take(i as int), e),
        decreases n - i,
    {
        let c = conns[i];
        proof {
            assert(conns@.take(i + 1).drop_last() =~= conns@.take(i as int));
            assert(conns@.take(i + 1).last() == conns@[i as int]);
        }
        let hit = match e.only_via {
            Via::Address(a) => a == c,
            Via::Direct => false,
        };
        if hit {
            r.push((c, RemoveForwarded { to: e.for_connection }));
        }
        i += 1;
    }
    proof {
        assert(conns@.take(n as int) =~= conns@);
    }
    r
}

/// Send each neighbor the cost update a summary change owes it.
pub fn fanout_min_updated(conns: &Vec<Address>, e: MinRttUpdated) -> (r: Vec<(
    Address,
    UpdatedForwardedRtt,
)>)
    ensures
        r@ == min_updated_fanout(conns@, e),
{
    let mut r: Vec<(Address, UpdatedForwardedRtt)> = Vec::new();
    let n = conns.len();
    let mut i: usize = 0;
    while i < n
        invariant
            n == conns@.len(),
            0 <= i <= n,
            r@ == min_updated_fanout(conns@.take(i as int), e),
        decreases n - i,
    {
        let c = conns[i];
        proof {
            assert(conns@.take(i + 1).drop_last() =~= conns@.take(i as int));
            assert(conns@.take(i + 1).last() == conns@[i as int]);
        }
        match e.update_for(c) {
            Some(u) => {
                r.push((c, u));
            },
            None => {},
        }
        i += 1;
    }
    proof {
        assert(conns@.take(n as int) =~= conns@);
    }
    r
}

/// How many of a fan-out's notifications address `a`.
pub open spec fn count_to(s: Seq<(Address, AddForwarded)>, a: Address) -> nat
    decreases s.len(),
{
    if s.len() == 0 {
        0
    } else {
        count_to(s.drop_last(), a) + if s.last().0 == a {
            1nat
        } else {
            0nat
        }
    }
}

/// How often an address occurs in a neighbor list.
pub open spec fn count_addr(s: Seq<Address>, a: Address) -> nat
    decreases s.len(),
{
    if s.len() == 0 {
        0
    } else {
        count_addr(s.drop_last(), a) + if s.last() == a {
            1nat
        } else {
            0nat
        }
    }
}

/// A neighbor connected once, and neither the new destination nor on the
/// new route's path, hears exactly one `AddForwarded`, carrying the new
/// destination and its cost.
pub proof fn lemma_added_fanout_exactly_one(conns: Seq<Address>, e: ConnectionAdded, a: Address)
    requires
        count_addr(conns, a) == 1,
        a != e.to,
        e.via != Via::Address(a),
    ensures
        count_to(added_fanout(conns, e), a) == 1,
        forall|i: int|
            0 <= i < added_fanout(conns, e).len() && (#[trigger] added_fanout(conns, e)[i]).0 == a
                ==> added_fanout(conns, e)[i].1 == (AddForwarded { to: e.to, rtt: e.rtt }),
{
    lemma_added_fanout_count(conns, e, a);
    lemma_added_fanout_payload(conns, e);
}

/// Notifications to a neighbor come one per occurrence in the list.
proof fn lemma_added_fanout_count(conns: Seq<Address>, e: ConnectionAdded, a: Address)
    requires
        a != e.to,
        e.via != Via::Address(a),
    ensures
        count_to(added_fanout(conns, e), a) == count_addr(conns, a),
    decreases conns.len(),
{
    if conns.len() > 0 {
        lemma_added_fanout_count(conns.drop_last(), e, a);
        let prev = added_fanout(conns.drop_last(), e);
        let c = conns.last();
        if c != e.to && e.via != Via::Address(c) {
            let f = prev + seq![(c, AddForwarded { to: e.to, rtt: e.rtt })];
            assert(f.drop_last() =~= prev);
        }
    }
}

/// Every notification in the fan-out carries the destination and cost of
/// the event.
proof fn lemma_added_fanout_payload(conns: Seq<Address>, e: ConnectionAdded)
    ensures
        forall|i: int|
            0 <= i < added_fanout(conns, e).len() ==> (#[trigger] added_fanout(conns, e)[i]).1
                == (AddForwarded { to: e.to, rtt: e.rtt }),
    decreases conns.len(),
{
    if conns.len() > 0 {
        lemma_added_fanout_payload(conns.drop_last(), e);
        let prev = added_fanout(conns.drop_last(), e);
        let c = conns.last();
        if c != e.to && e.via != Via::Address(c) {
            let f = prev + seq![(c, AddForwarded { to: e.to, rtt: e.rtt })];
            assert(forall|i: int| 0 <= i < prev.len() ==> f[i] == prev[i]);
        }
    }
}

} // verus!
