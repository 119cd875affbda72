//! The dispatcher state: one endpoint's address, its routing table, its
//! direct connections, the handler registry, and the pending-response map.
//! The event loop around it owns the transports and tasks; every decision
//! it takes — forward or terminate, which handler, which error reply — is
//! computed here.

use vstd::prelude::*;

use crate::Address;
use crate::internal::{AddForwarded, RemoveForwarded, UpdatedForwardedRtt};
use crate::packet::{encode_request_spec, encode_response_spec, json_safe, payload_ok,
    spec_decode, OpaquePacket, OutgoingMessage, PacketModel, decode_packet};
use crate::pending::PendingMap;
use crate::registry::{HandlerKind, SlotTable};
use crate::route::{route_dec_map, route_inc_map, route_update_map, spec_dec_events,
    spec_inc_events, spec_update_events, others_unchanged, RouteEvent, RouteSet, Rtt, Via};
use crate::util::bytes_eq;

verus! {

/// Waiting for a connection failed because the endpoint shut down.
#[derive(PartialEq, Eq, Structural, Clone, Copy, Debug)]
pub struct WaitError;

/// Relies on uuid::Uuid::new_v4 and its hyphenated Display form: a fresh
/// 128-bit random id rendered as 36 bytes of lowercase hex digits and
/// hyphens.
#[verifier::external_body]
fn fresh_request_id() -> (r: Vec<u8>)
    ensures
        r@.len() == 36,
        forall|i: int|
            0 <= i < r@.len() ==> ((#[trigger] r@[i]) == 45 || (48 <= r@[i] <= 57) || (97 <= r@[i]
                <= 102)),
{
    uuid::Uuid::new_v4().to_string().into_bytes()
}

/// What the dispatcher decided about one inbound frame.
#[derive(Debug)]
pub enum FrameDisposition {
    /// The envelope did not parse: drop.
    Malformed,
    /// A response for a request of ours: the pending entry was completed;
    /// the surroundings deliver `error` or the frame's payload to the
    /// waiting caller.
    CompletedResponse { rid: Vec<u8>, error: Option<Vec<u8>> },
    /// A response for a request of ours that is no longer pending: drop.
    LateResponse { rid: Vec<u8> },
    /// A response for another endpoint: resend the frame unchanged to the
    /// next hop.
    ForwardResponse { next: Address },
    /// A response for another endpoint with no next hop: drop.
    NoRouteResponse,
    /// The frame arrived over a link that cannot speak for its sender:
    /// drop.
    ProvenanceRejected,
    /// A request or notification for this endpoint, with a slot to serve
    /// it: the surroundings run the slot on the frame.
    Deliver { kind: HandlerKind, request: Vec<u8>, sender: Address, rid: Option<Vec<u8>> },
    /// A request or notification for this endpoint that nothing serves;
    /// a request earns its sender an error reply.
    NoHandler { reply: Option<OutgoingMessage> },
    /// A frame for another endpoint: resend it unchanged to the next hop.
    Forward { next: Address },
    /// A frame for another endpoint with no next hop; a request earns its
    /// sender an error reply.
    NoRoute { reply: Option<OutgoingMessage> },
}

/// The single owner of one endpoint's mutable state.
pub struct RpcInner {
    me: Address,
    set: RouteSet,
    connections: Vec<Address>,
    request_handler: SlotTable,
    notification_handler: SlotTable,
    responses: PendingMap,
}

impl RpcInner {
    /// This endpoint's own address.
    pub closed spec fn me_spec(&self) -> Address {
        self.me
    }

    /// The routing table.
    pub closed spec fn route_set(&self) -> RouteSet {
        self.set
    }

    /// The addresses of the direct peers, in connection order.
    pub closed spec fn conns(&self) -> Seq<Address> {
        self.connections@
    }

    /// The request-side handler slots.
    pub closed spec fn req_slots(&self) -> SlotTable {
        self.request_handler
    }

    /// The notification-side handler slots.
    pub closed spec fn notif_slots(&self) -> SlotTable {
        self.notification_handler
    }

    /// The pending-response map.
    pub closed spec fn pending(&self) -> PendingMap {
        self.responses
    }

    /// Everything sound, no peer connected twice, and a destination has a
    /// direct-link route exactly while its connection is open.
    pub closed spec fn wf(&self) -> bool {
        &&& self.set.wf()
        &&& self.request_handler.wf()
        &&& self.notification_handler.wf()
        &&& self.responses.wf()
        &&& forall|i: int, j: int|
            0 <= i < j < self.connections@.len() ==> self.connections@[i] != self.connections@[j]
        &&& forall|a: Address|
            #[trigger] self.connections@.contains(a) <==> self.set.routes_via(a, Via::Direct)
    }

    pub fn new(me: Address) -> (r: Self)
        ensures
            r.wf(),
            r.me_spec() == me,
            r.conns() == Seq::<Address>::empty(),
            r.route_set()@ == Map::<Address, Map<Via, Rtt>>::empty(),
            forall|n: Seq<u8>| !r.req_slots().has_slot(n),
            forall|n: Seq<u8>| !r.notif_slots().has_slot(n),
            forall|rid: Seq<u8>| !r.pending().is_pending(rid),
    {
        let set = RouteSet::new();
        let r = RpcInner {
            me,
            set,
            connections: Vec::new(),
            request_handler: SlotTable::new(),
            notification_handler: SlotTable::new(),
            responses: PendingMap::new(),
        };
        proof {
            assert forall|a: Address|
                #[trigger] r.connections@.contains(a) <==> r.set.routes_via(a, Via::Direct) by {
                assert(!r.set.has_spec(a));
                crate::kv::lemma_to_map_contains(r.set.vias_list(a), Via::Direct);
            }
        }
        r
    }

    /// Whether `a` is a direct peer right now.
    pub fn is_connected(&self, a: Address) -> (r: bool)
        ensures
            r == self.conns().contains(a),
    {
        let n = self.connections.len();
        let mut i: usize = 0;
        while i < n
            invariant
                n == self.connections@.len(),
                0 <= i <= n,
                forall|j: int| 0 <= j < i ==> self.connections@[j] != a,
            decreases n - i,
        {
            if self.connections[i] == a {
                proof {
                    assert(self.connections@.contains(a));
                }
                return true;
            }
            i += 1;
        }
        proof {
            if self.connections@.contains(a) {
                let j = choose|j: int|
                    0 <= j < self.connections@.len() && self.connections@[j] == a;
            }
        }
        false
    }

    /// A copy of the direct-peer list, for fanning notifications out.
    pub fn connections_list(&self) -> (r: Vec<Address>)
        ensures
            r@ == self.conns(),
    {
        let n = self.connections.len();
        let mut r: Vec<Address> = Vec::new();
        let mut i: usize = 0;
        while i < n
            invariant
                n == self.connections@.len(),
                0 <= i <= n,
                r@ == self.connections@.take(i as int),
            decreases n - i,
        {
            r.push(self.connections[i]);
            proof {
                assert(r@ =~= self.connections@.take(i + 1));
            }
            i += 1;
        }
        proof {
            assert(self.connections@.take(n as int) =~= self.connections@);
        }
        r
    }

    /// Whether any route to `address` is known.
    pub fn has_route(&self, address: Address) -> (r: bool)
        requires
            self.wf(),
        ensures
            r == self.route_set().has_spec(address),
    {
        self.set.has(address)
    }

    /// The direct peer an outbound frame for `address` should be written
    /// to: the destination itself over its own link when one is open, else
    /// the least-cost via — provided that hop is itself connected.
    pub fn forwarder_for(&self, address: Address, blacklist: &Vec<Via>) -> (r: Option<Address>)
        requires
            self.wf(),
        ensures
            ({
                let m = self.route_set().vias_of(address);
                match r {
                    Some(x) => self.conns().contains(x) && ((x == address && m.contains_key(
                        Via::Direct,
                    )) || (m.contains_key(Via::Address(x)) && !m.contains_key(Via::Direct)
                        && !blacklist@.contains(Via::Address(x)) && forall|w: Via|
                        #[trigger] m.contains_key(w) && !blacklist@.contains(w) ==> m[w].0
                            >= m[Via::Address(x)].0)),
                    None => (forall|w: Via| #[trigger] m.contains_key(w) ==> blacklist@.contains(w))
                        || (exists|v: Via|
                        #[trigger] m.contains_key(v) && !blacklist@.contains(v) && (forall|w: Via|
                            #[trigger] m.contains_key(w) && !blacklist@.contains(w) ==> m[w].0
                                >= m[v].0) && (v == Via::Direct || !self.conns().contains(
                            v->Address_0,
                        )) && (v == Via::Direct ==> !self.conns().contains(address))),
                }
            }),
            self.route_set().vias_of(address).contains_key(Via::Direct) && self.conns().contains(
                address,
            ) ==> r == Some(address),
    {
        let via = match self.set.forwarder_for(address, blacklist) {
            Some(v) => v,
            None => {
                return None;
            },
        };
        let target = match via {
            Via::Address(x) => x,
            Via::Direct => address,
        };
        if self.is_connected(target) {
            Some(target)
        } else {
            proof {
                let m = self.route_set().vias_of(address);
                assert(m.contains_key(via) && (via == Via::Direct || !blacklist@.contains(via)));
            }
            None
        }
    }

    /// Deliver a response to the request that awaits it; a late or
    /// duplicate id finds nothing.
    pub fn complete_response(&mut self, id: &Vec<u8>) -> (found: bool)
        requires
            old(self).wf(),
        ensures
            final(self).wf(),
            found == old(self).pending().is_pending(id@),
            forall|r: Seq<u8>|
                #[trigger] final(self).pending().is_pending(r) <==> (old(self).pending().is_pending(
                    r,
                ) && r != id@),
            final(self).me_spec() == old(self).me_spec(),
            final(self).route_set() == old(self).route_set(),
            final(self).conns() == old(self).conns(),
            final(self).req_slots() == old(self).req_slots(),
            final(self).notif_slots() == old(self).notif_slots(),
    {
        self.responses.complete(id)
    }

    /// Start a request: a fresh id is recorded as pending, and the
    /// request envelope is built for sending.
    pub fn request(&mut self, to: Address, request_name: &Vec<u8>, payload: &Vec<u8>) -> (r: (
        OutgoingMessage,
        Vec<u8>,
    ))
        requires
            old(self).wf(),
            payload_ok(payload@),
        ensures
            final(self).wf(),
            r.0.to == to,
            r.0.message@ == encode_request_spec(
                old(self).me_spec(),
                to,
                request_name@,
                Some(r.1@),
                payload@,
            ),
            json_safe(r.1@),
            final(self).pending().is_pending(r.1@),
            forall|x: Seq<u8>|
                #[trigger] final(self).pending().is_pending(x) <==> (old(self).pending().is_pending(
                    x,
                ) || x == r.1@),
            final(self).me_spec() == old(self).me_spec(),
            final(self).route_set() == old(self).route_set(),
            final(self).conns() == old(self).conns(),
            final(self).req_slots() == old(self).req_slots(),
            final(self).notif_slots() == old(self).notif_slots(),
    {
        let rid = fresh_request_id();
        proof {
            assert(json_safe(rid@));
        }
        let mut rid_copy: Vec<u8> = Vec::new();
        let n = rid.len();
        let mut i: usize = 0;
        while i < n
            invariant
                n == rid@.len(),
                0 <= i <= n,
                rid_copy@ == rid@.take(i as int),
            decreases n - i,
        {
            rid_copy.push(rid[i]);
            proof {
                assert(rid_copy@ =~= rid@.take(i + 1));
            }
            i += 1;
        }
        proof {
            assert(rid@.take(n as int) =~= rid@);
        }
        let msg = OutgoingMessage::new_request(self.me, to, request_name, &rid, payload);
        self.responses.insert(rid);
        (msg, rid_copy)
    }

    /// Build a notification envelope for sending.
    pub fn notify(&self, to: Address, name: &Vec<u8>, payload: &Vec<u8>) -> (r: OutgoingMessage)
        requires
            payload_ok(payload@),
        ensures
            r.to == to,
            r.message@ == encode_request_spec(self.me_spec(), to, name@, None, payload@),
    {
        OutgoingMessage::new_notification(self.me, to, name, payload)
    }

    /// Build an error reply for a request.
    pub fn respond_with_error(&self, rid: &Vec<u8>, to: Address, error: &Vec<u8>) -> (r:
        OutgoingMessage)
        ensures
            r.to == to,
            r.message@ == encode_response_spec(rid@, to, Some(error@), seq![123u8, 125u8]),
    {
        OutgoingMessage::new_error_response(rid, to, error)
    }

    /// Apply a neighbor's `AddForwarded`: only a direct peer may announce
    /// routes through itself.
    pub fn apply_add_forwarded(&mut self, source: Address, n: AddForwarded) -> (r: Option<
        Vec<RouteEvent>,
    >)
        requires
            old(self).wf(),
        ensures
            final(self).wf(),
            !old(self).conns().contains(source) ==> r == None::<Vec<RouteEvent>> && *final(self)
                == *old(self),
            old(self).conns().contains(source) ==> match r {
                Some(ev) => {
                    &&& final(self).route_set()@ == route_inc_map(
                        old(self).route_set()@,
                        n.to,
                        Via::Address(source),
                        n.rtt,
                    )
                    &&& ev@ == spec_inc_events(
                        old(self).route_set(),
                        final(self).route_set(),
                        n.to,
                        Via::Address(source),
                        n.rtt,
                    )
                    &&& others_unchanged(old(self).route_set(), final(self).route_set(), n.to)
                },
                None => false,
            },
            final(self).me_spec() == old(self).me_spec(),
            final(self).conns() == old(self).conns(),
            final(self).req_slots() == old(self).req_slots(),
            final(self).notif_slots() == old(self).notif_slots(),
            final(self).pending() == old(self).pending(),
    {
        if !self.is_connected(source) {
            return None;
        }
        let ev = self.set.inc(n.to, Via::Address(source), n.rtt);
        proof {
            crate::route::lemma_non_direct_edit(
                old(self).set,
                self.set,
                n.to,
                Via::Address(source),
            );
            self.lemma_conn_direct_preserved(*old(self));
        }
        Some(ev)
    }

    /// Apply a neighbor's `RemoveForwarded`, under the same rule.
    pub fn apply_remove_forwarded(&mut self, source: Address, n: RemoveForwarded) -> (r: Option<
        Vec<RouteEvent>,
    >)
        requires
            old(self).wf(),
        ensures
            final(self).wf(),
            !old(self).conns().contains(source) ==> r == None::<Vec<RouteEvent>> && *final(self)
                == *old(self),
            old(self).conns().contains(source) ==> match r {
                Some(ev) => {
                    &&& final(self).route_set()@ == route_dec_map(
                        old(self).route_set()@,
                        n.to,
                        Via::Address(source),
                    )
                    &&& ev@ == spec_dec_events(
                        old(self).route_set(),
                        final(self).route_set(),
                        n.to,
                        Via::Address(source),
                    )
                    &&& others_unchanged(old(self).route_set(), final(self).route_set(), n.to)
                },
                None => false,
            },
            final(self).me_spec() == old(self).me_spec(),
            final(self).conns() == old(self).conns(),
            final(self).req_slots() == old(self).req_slots(),
            final(self).notif_slots() == old(self).notif_slots(),
            final(self).pending() == old(self).pending(),
    {
        if !self.is_connected(source) {
            return None;
        }
        let ev = self.set.dec(n.to, Via::Address(source));
        proof {
            crate::route::lemma_non_direct_edit(
                old(self).set,
                self.set,
                n.to,
                Via::Address(source),
            );
            self.lemma_conn_direct_preserved(*old(self));
        }
        Some(ev)
    }

    /// Apply a neighbor's `UpdatedForwardedRtt`, under the same rule.
    pub fn apply_update_forwarded(&mut self, source: Address, n: UpdatedForwardedRtt) -> (r:
        Option<Vec<RouteEvent>>)
        requires
            old(self).wf(),
        ensures
            final(self).wf(),
            !old(self).conns().contains(source) ==> r == None::<Vec<RouteEvent>> && *final(self)
                == *old(self),
            old(self).conns().contains(source) ==> match r {
                Some(ev) => {
                    &&& final(self).route_set()@ == route_update_map(
                        old(self).route_set()@,
                        n.to,
                        Via::Address(source),
                        n.rtt,
                    )
                    &&& ev@ == spec_update_events(
                        old(self).route_set(),
                        final(self).route_set(),
                        n.to,
                        Via::Address(source),
                    )
                    &&& others_unchanged(old(self).route_set(), final(self).route_set(), n.to)
                },
                None => false,
            },
            final(self).me_spec() == old(self).me_spec(),
            final(self).conns() == old(self).conns(),
            final(self).req_slots() == old(self).req_slots(),
            final(self).notif_slots() == old(self).notif_slots(),
            final(self).pending() == old(self).pending(),
    {
        if !self.is_connected(source) {
            return None;
        }
        let ev = self.set.update(n.to, Via::Address(source), n.rtt);
        proof {
            crate::route::lemma_non_direct_edit(
                old(self).set,
                self.set,
                n.to,
                Via::Address(source),
            );
            self.lemma_conn_direct_preserved(*old(self));
        }
        Some(ev)
    }

    /// Close the direct link to `to`: drop the connection, its direct
    /// route, and every route that forwarded through `to` — those are dead
    /// now. An unknown peer is left alone.
    #[verifier::rlimit(60)]
    pub fn remove_direct(&mut self, to: Address) -> (ev: Vec<RouteEvent>)
        requires
            old(self).wf(),
        ensures
            final(self).wf(),
            !old(self).conns().contains(to) ==> *final(self) == *old(self) && ev@ == Seq::<
                RouteEvent,
            >::empty(),
            old(self).conns().contains(to) ==> {
                &&& forall|a: Address|
                    #[trigger] final(self).conns().contains(a) <==> (old(self).conns().contains(a)
                        && a != to)
                &&& forall|a: Address, v: Via|
                    #[trigger] final(self).route_set().routes_via(a, v) <==> (old(self).route_set().routes_via(a, v) && v != Via::Address(to) && !(a == to && v
                        == Via::Direct))
            },
            final(self).me_spec() == old(self).me_spec(),
            final(self).req_slots() == old(self).req_slots(),
            final(self).notif_slots() == old(self).notif_slots(),
            final(self).pending() == old(self).pending(),
    {
        let ghost pre = *old(self);
        let mut ev: Vec<RouteEvent> = Vec::new();
        let n = self.connections.len();
        let mut found_idx: Option<usize> = None;
        let mut j: usize = 0;
        while j < n
            invariant
                self.connections@ == pre.connections@,
                n == pre.connections@.len(),
                0 <= j <= n,
                match found_idx {
                    None => forall|k: int| 0 <= k < j ==> pre.connections@[k] != to,
                    Some(fi) => fi < n && pre.connections@[fi as int] == to,
                },
            decreases n - j,
        {
            let hit = match found_idx {
                None => self.connections[j] == to,
                Some(_) => false,
            };
            if hit {
                found_idx = Some(j);
            }
            j += 1;
        }
        let idx = match found_idx {
            Some(fi) => fi,
            None => {
                proof {
                    if pre.connections@.contains(to) {
                        let k = choose|k: int|
                            0 <= k < pre.connections@.len() && pre.connections@[k] == to;
                    }
                    assert(ev@ =~= Seq::<RouteEvent>::empty());
                }
                return ev;
            },
        };
        proof {
            assert(pre.connections@[idx as int] == to);
            assert(pre.connections@.contains(to));
        }
        self.connections.remove(idx);
        proof {
            assert(self.connections@ =~= pre.connections@.remove(idx as int));
            assert forall|a: Address|
                #[trigger] self.connections@.contains(a) <==> (pre.connections@.contains(a) && a
                    != to) by {
                assert(self.connections@ == pre.connections@.remove(idx as int));
                assert(pre.connections@[idx as int] == to);
                if self.connections@.contains(a) {
                    let j = choose|j: int|
                        0 <= j < self.connections@.len() && self.connections@[j] == a;
                    let b = if j < idx as int {
                        j
                    } else {
                        j + 1
                    };
                    assert(pre.connections@[b] == a);
                    if a == to {
                        let gidx = idx as int;
                        assert(b != gidx && pre.connections@[b] == pre.connections@[gidx]);
                    }
                }
                if pre.connections@.contains(a) && a != to {
                    let j = choose|j: int|
                        0 <= j < pre.connections@.len() && pre.connections@[j] == a;
                    assert(j != idx as int);
                    let b = if j < idx as int {
                        j
                    } else {
                        j - 1
                    };
                    assert(self.connections@[b] == a);
                }
            }
            assert forall|i: int, j: int|
                0 <= i < j < self.connections@.len() implies self.connections@[i]
                != self.connections@[j] by {
                let bi = if i < idx as int {
                    i
                } else {
                    i + 1
                };
                let bj = if j < idx as int {
                    j
                } else {
                    j + 1
                };
                assert(self.connections@[i] == pre.connections@[bi] && self.connections@[j]
                    == pre.connections@[bj]);
            }
        }
        let via = Via::Address(to);
        let ds = match self.set.forwarded(via) {
            Some(d) => d,
            None => Vec::new(),
        };
        proof {
            assert(forall|a: Address| #[trigger] ds@.contains(a) ==> pre.set.routes_via(a, via));
            assert(forall|a: Address|
                #[trigger] pre.set.routes_via(a, via) ==> ds@.contains(a));
            assert(forall|k: int, l: int| 0 <= k < l < ds@.len() ==> ds@[k] != ds@[l]);
        }
        let m = ds.len();
        let mut i: usize = 0;
        while i < m
            invariant
                m == ds@.len(),
                0 <= i <= m,
                self.set.wf(),
                pre == *old(self),
                pre.wf(),
                0 <= idx < pre.connections@.len(),
                pre.connections@[idx as int] == to,
                self.connections@ == pre.connections@.remove(idx as int),
                self.me == pre.me,
                self.request_handler == pre.request_handler,
                self.notification_handler == pre.notification_handler,
                self.responses == pre.responses,
                forall|a: Address| #[trigger] ds@.contains(a) ==> pre.set.routes_via(a, via),
                forall|a: Address| #[trigger] pre.set.routes_via(a, via) ==> ds@.contains(a),
                forall|k: int, l: int| 0 <= k < l < ds@.len() ==> ds@[k] != ds@[l],
                forall|b: Address, w: Via|
                    #[trigger] self.set.routes_via(b, w) <==> (pre.set.routes_via(b, w) && !(w
                        == via && ds@.take(i as int).contains(b))),
            decreases m - i,
        {
            let d = ds[i];
            let ghost sp = self.set;
            let mut e = self.set.dec(d, via);
            ev.append(&mut e);
            proof {
                crate::route::lemma_dec_membership(sp, self.set, d, via);
                assert(ds@.take(i + 1) =~= ds@.take(i as int).push(ds@[i as int]));
                assert forall|b: Address, w: Via|
                    #[trigger] self.set.routes_via(b, w) <==> (pre.set.routes_via(b, w) && !(w
                        == via && ds@.take(i + 1).contains(b))) by {
                    if ds@.take(i + 1).contains(b) {
                        let j = choose|j: int|
                            0 <= j < ds@.take(i + 1).len() && (#[trigger] ds@.take(i + 1)[j])
                                == b;
                        if j < i as int {
                            assert(ds@.take(i as int)[j] == b);
                        } else {
                            assert(b == d);
                        }
                    }
                    if ds@.take(i as int).contains(b) {
                        let j = choose|j: int|
                            0 <= j < ds@.take(i as int).len() && (#[trigger] ds@.take(i as int)[j])
                                == b;
                        assert(ds@.take(i + 1)[j] == b);
                    }
                    if b == d {
                        assert(ds@.take(i + 1)[i as int] == b);
                    }
                }
            }
            i += 1;
        }
        let ghost sp2 = self.set;
        let mut e2 = self.set.on_remove_direct_connection(to);
        ev.append(&mut e2);
        proof {
            crate::route::lemma_dec_membership(sp2, self.set, to, Via::Direct);
            assert(ds@.take(m as int) =~= ds@);
            assert forall|b: Address, w: Via|
                #[trigger] self.set.routes_via(b, w) <==> (pre.set.routes_via(b, w) && w != via
                    && !(b == to && w == Via::Direct)) by {
                if pre.set.routes_via(b, w) && w == via {
                    assert(ds@.contains(b));
                }
            }
            assert forall|a: Address|
                #[trigger] self.connections@.contains(a) <==> self.set.routes_via(
                a,
                Via::Direct,
            ) by {
                assert(pre.connections@.contains(a) <==> pre.set.routes_via(a, Via::Direct));
                assert(self.connections@ == pre.connections@.remove(idx as int));
                assert(pre.connections@[idx as int] == to);
                if self.connections@.contains(a) {
                    let k = choose|k: int|
                        0 <= k < self.connections@.len() && self.connections@[k] == a;
                    let b = if k < idx as int {
                        k
                    } else {
                        k + 1
                    };
                    assert(pre.connections@[b] == a);
                    if a == to {
                        let gidx = idx as int;
                        assert(b != gidx && pre.connections@[b] == pre.connections@[gidx]);
                    }
                }
                if pre.connections@.contains(a) && a != to {
                    let k = choose|k: int|
                        0 <= k < pre.connections@.len() && pre.connections@[k] == a;
                    assert(k != idx as int);
                    let b = if k < idx as int {
                        k
                    } else {
                        k - 1
                    };
                    assert(self.connections@[b] == a);
                }
            }
            assert forall|a: Address|
                #[trigger] self.connections@.contains(a) <==> (pre.connections@.contains(a) && a
                    != to) by {
                assert(self.connections@ == pre.connections@.remove(idx as int));
                assert(pre.connections@[idx as int] == to);
                if self.connections@.contains(a) {
                    let k = choose|k: int|
                        0 <= k < self.connections@.len() && self.connections@[k] == a;
                    let b = if k < idx as int {
                        k
                    } else {
                        k + 1
                    };
                    assert(pre.connections@[b] == a);
                    if a == to {
                        let gidx = idx as int;
                        assert(b != gidx && pre.connections@[b] == pre.connections@[gidx]);
                    }
                }
                if pre.connections@.contains(a) && a != to {
                    let k = choose|k: int|
                        0 <= k < pre.connections@.len() && pre.connections@[k] == a;
                    assert(k != idx as int);
                    let b = if k < idx as int {
                        k
                    } else {
                        k - 1
                    };
                    assert(self.connections@[b] == a);
                }
            }
        }
        ev
    }

    /// Decide one inbound frame: decode the envelope, check its
    /// provenance, and either terminate it here — a response to its
    /// pending entry, a request or notification to its handler slot — or
    /// choose the next hop to resend it on.
    #[verifier::rlimit(60)]
    pub fn handle_frame(&mut self, packet_source: Address, bytes: &Vec<u8>) -> (d:
        FrameDisposition)
        requires
            old(self).wf(),
        ensures
            final(self).wf(),
            final(self).me_spec() == old(self).me_spec(),
            final(self).route_set() == old(self).route_set(),
            final(self).conns() == old(self).conns(),
            final(self).req_slots() == old(self).req_slots(),
            final(self).notif_slots() == old(self).notif_slots(),
            match spec_decode(bytes@) {
                None => d is Malformed && *final(self) == *old(self),
                Some(m) => match m {
                    PacketModel::Response { rid, request_origin, error } => {
                        if request_origin == old(self).me_spec() {
                            &&& (forall|x: Seq<u8>|
                                #[trigger] final(self).pending().is_pending(x) <==> (old(self).pending().is_pending(x) && x != rid))
                            &&& match d {
                                FrameDisposition::CompletedResponse { rid: r2, error: e2 } => {
                                    &&& old(self).pending().is_pending(rid)
                                    &&& r2@ == rid
                                    &&& match (e2, error) {
                                        (None, None) => true,
                                        (Some(x), Some(y)) => x@ == y,
                                        _ => false,
                                    }
                                },
                                FrameDisposition::LateResponse { rid: r2 } => !old(self).pending().is_pending(rid) && r2@ == rid,
                                _ => false,
                            }
                        } else {
                            &&& *final(self) == *old(self)
                            &&& match d {
                                FrameDisposition::ForwardResponse { next } => final(self).conns().contains(next),
                                FrameDisposition::NoRouteResponse => true,
                                _ => false,
                            }
                        }
                    },
                    PacketModel::Request { sender, receiver, request, response } => {
                        if !(packet_source == sender || old(self).route_set().vias_of(
                            sender,
                        ).contains_key(Via::Address(packet_source))) {
                            d is ProvenanceRejected && *final(self) == *old(self)
                        } else if receiver == old(self).me_spec() {
                            &&& *final(self) == *old(self)
                            &&& ({
                                let side = if response is Some {
                                    old(self).req_slots()
                                } else {
                                    old(self).notif_slots()
                                };
                                if side.has_slot(request) {
                                    match d {
                                        FrameDisposition::Deliver {
                                            kind,
                                            request: rq2,
                                            sender: s2,
                                            rid: rid2,
                                        } => {
                                            &&& kind == side.kind_of(request)
                                            &&& rq2@ == request
                                            &&& s2 == sender
                                            &&& match (rid2, response) {
                                                (None, None) => true,
                                                (Some(x), Some(y)) => x@ == y,
                                                _ => false,
                                            }
                                        },
                                        _ => false,
                                    }
                                } else {
                                    match d {
                                        FrameDisposition::NoHandler { reply } => match (
                                            reply,
                                            response,
                                        ) {
                                            (None, None) => true,
                                            (Some(msg), Some(rid)) => msg.to == sender
                                                && msg.message@ == encode_response_spec(
                                                rid,
                                                sender,
                                                Some(no_handler_msg(request)),
                                                seq![123u8, 125u8],
                                            ),
                                            _ => false,
                                        },
                                        _ => false,
                                    }
                                }
                            })
                        } else {
                            &&& *final(self) == *old(self)
                            &&& match d {
                                FrameDisposition::Forward { next } => final(self).conns().contains(next),
                                FrameDisposition::NoRoute { reply } => match (reply, response) {
                                    (None, None) => true,
                                    (Some(msg), Some(rid)) => msg.to == sender && msg.message@
                                        == encode_response_spec(
                                        rid,
                                        sender,
                                        Some(spec_msg_no_forwarder()),
                                        seq![123u8, 125u8],
                                    ),
                                    _ => false,
                                },
                                _ => false,
                            }
                        }
                    },
                },
            },
    {
        let packet = match decode_packet(bytes) {
            Some(p) => p,
            None => {
                return FrameDisposition::Malformed;
            },
        };
        match packet {
            OpaquePacket::Response { rid, request_origin, error } => {
                if request_origin == self.me {
                    let found = self.responses.complete(&rid);
                    if found {
                        FrameDisposition::CompletedResponse { rid, error }
                    } else {
                        FrameDisposition::LateResponse { rid }
                    }
                } else {
                    let empty_bl: Vec<Via> = Vec::new();
                    match self.forwarder_for(request_origin, &empty_bl) {
                        Some(next) => FrameDisposition::ForwardResponse { next },
                        None => FrameDisposition::NoRouteResponse,
                    }
                }
            },
            OpaquePacket::Request { sender, receiver, request, response } => {
                if !self.set.may_be_forwarder_for(Via::Address(packet_source), sender) {
                    return FrameDisposition::ProvenanceRejected;
                }
                if receiver == self.me {
                    let is_request = match &response {
                        Some(_) => true,
                        None => false,
                    };
                    let slot = if is_request {
                        self.request_handler.get(&request)
                    } else {
                        self.notification_handler.get(&request)
                    };
                    match slot {
                        Some(kind) => FrameDisposition::Deliver {
                            kind,
                            request,
                            sender,
                            rid: response,
                        },
                        None => {
                            let reply = match &response {
                                Some(rid) => {
                                    let msg = build_no_handler_msg(&request);
                                    Some(OutgoingMessage::new_error_response(rid, sender, &msg))
                                },
                                None => None,
                            };
                            FrameDisposition::NoHandler { reply }
                        },
                    }
                } else {
                    let empty_bl: Vec<Via> = Vec::new();
                    match self.forwarder_for(receiver, &empty_bl) {
                        Some(next) => FrameDisposition::Forward { next },
                        None => {
                            let reply = match &response {
                                Some(rid) => {
                                    let msg = msg_no_forwarder();
                                    Some(OutgoingMessage::new_error_response(rid, sender, &msg))
                                },
                                None => None,
                            };
                            FrameDisposition::NoRoute { reply }
                        },
                    }
                }
            },
        }
    }

    /// Register a callback slot for a request kind. A taken kind-name is
    /// a programmer error, so the caller must check first.
    pub fn register_request_handler(&mut self, name: Vec<u8>)
        requires
            old(self).wf(),
            !old(self).req_slots().has_slot(name@),
        ensures
            final(self).wf(),
            forall|n: Seq<u8>|
                #[trigger] final(self).req_slots().has_slot(n) <==> (old(
                    self,
                ).req_slots().has_slot(n) || n == name@),
            final(self).req_slots().kind_of(name@) == (HandlerKind::Callback { blocking: false }),
            final(self).me_spec() == old(self).me_spec(),
            final(self).route_set() == old(self).route_set(),
            final(self).conns() == old(self).conns(),
            final(self).notif_slots() == old(self).notif_slots(),
            final(self).pending() == old(self).pending(),
    {
        let _ = self.request_handler.register(name, HandlerKind::Callback { blocking: false });
    }

    /// Register a callback slot for a notification kind.
    pub fn register_notification_handler(&mut self, name: Vec<u8>)
        requires
            old(self).wf(),
            !old(self).notif_slots().has_slot(name@),
        ensures
            final(self).wf(),
            forall|n: Seq<u8>|
                #[trigger] final(self).notif_slots().has_slot(n) <==> (old(
                    self,
                ).notif_slots().has_slot(n) || n == name@),
            final(self).notif_slots().kind_of(name@) == (HandlerKind::Callback {
                blocking: false,
            }),
            final(self).me_spec() == old(self).me_spec(),
            final(self).route_set() == old(self).route_set(),
            final(self).conns() == old(self).conns(),
            final(self).req_slots() == old(self).req_slots(),
            final(self).pending() == old(self).pending(),
    {
        let _ = self.notification_handler.register(
            name,
            HandlerKind::Callback { blocking: false },
        );
    }

    /// Register a callback slot for a notification kind whose handling
    /// must finish before the next event is processed — used by the
    /// internal route protocol, so routing converges first.
    pub fn register_blocking_notification_handler(&mut self, name: Vec<u8>)
        requires
            old(self).wf(),
            !old(self).notif_slots().has_slot(name@),
        ensures
            final(self).wf(),
            forall|n: Seq<u8>|
                #[trigger] final(self).notif_slots().has_slot(n) <==> (old(
                    self,
                ).notif_slots().has_slot(n) || n == name@),
            final(self).notif_slots().kind_of(name@) == (HandlerKind::Callback { blocking: true }),
            final(self).me_spec() == old(self).me_spec(),
            final(self).route_set() == old(self).route_set(),
            final(self).conns() == old(self).conns(),
            final(self).req_slots() == old(self).req_slots(),
            final(self).pending() == old(self).pending(),
    {
        let _ = self.notification_handler.register(
            name,
            HandlerKind::Callback { blocking: true },
        );
    }

    /// Register a polling slot for a request kind; a taken kind-name is
    /// refused.
    pub fn register_polling_request_handler(&mut self, name: Vec<u8>) -> (ok: bool)
        requires
            old(self).wf(),
        ensures
            final(self).wf(),
            ok == !old(self).req_slots().has_slot(name@),
            !ok ==> *final(self) == *old(self),
            forall|n: Seq<u8>|
                #[trigger] final(self).req_slots().has_slot(n) <==> (old(
                    self,
                ).req_slots().has_slot(n) || (ok && n == name@)),
            ok ==> final(self).req_slots().kind_of(name@) == HandlerKind::Polling,
            final(self).me_spec() == old(self).me_spec(),
            final(self).route_set() == old(self).route_set(),
            final(self).conns() == old(self).conns(),
            final(self).notif_slots() == old(self).notif_slots(),
            final(self).pending() == old(self).pending(),
    {
        self.request_handler.register(name, HandlerKind::Polling)
    }

    /// Register a polling slot for a notification kind; a taken kind-name
    /// is refused.
    pub fn register_polling_notification_handler(&mut self, name: Vec<u8>) -> (ok: bool)
        requires
            old(self).wf(),
        ensures
            final(self).wf(),
            ok == !old(self).notif_slots().has_slot(name@),
            !ok ==> *final(self) == *old(self),
            forall|n: Seq<u8>|
                #[trigger] final(self).notif_slots().has_slot(n) <==> (old(
                    self,
                ).notif_slots().has_slot(n) || (ok && n == name@)),
            ok ==> final(self).notif_slots().kind_of(name@) == HandlerKind::Polling,
            final(self).me_spec() == old(self).me_spec(),
            final(self).route_set() == old(self).route_set(),
            final(self).conns() == old(self).conns(),
            final(self).req_slots() == old(self).req_slots(),
            final(self).pending() == old(self).pending(),
    {
        self.notification_handler.register(name, HandlerKind::Polling)
    }

    /// Free a request kind's slot; freeing a free one changes nothing.
    pub fn unregister_polling_request_handler(&mut self, name: &Vec<u8>)
        requires
            old(self).wf(),
        ensures
            final(self).wf(),
            forall|n: Seq<u8>|
                #[trigger] final(self).req_slots().has_slot(n) <==> (old(
                    self,
                ).req_slots().has_slot(n) && n != name@),
            final(self).me_spec() == old(self).me_spec(),
            final(self).route_set() == old(self).route_set(),
            final(self).conns() == old(self).conns(),
            final(self).notif_slots() == old(self).notif_slots(),
            final(self).pending() == old(self).pending(),
    {
        self.request_handler.unregister(name);
    }

    /// Free a notification kind's slot; freeing a free one changes
    /// nothing.
    pub fn unregister_polling_notification_handler(&mut self, name: &Vec<u8>)
        requires
            old(self).wf(),
        ensures
            final(self).wf(),
            forall|n: Seq<u8>|
                #[trigger] final(self).notif_slots().has_slot(n) <==> (old(
                    self,
                ).notif_slots().has_slot(n) && n != name@),
            final(self).me_spec() == old(self).me_spec(),
            final(self).route_set() == old(self).route_set(),
            final(self).conns() == old(self).conns(),
            final(self).req_slots() == old(self).req_slots(),
            final(self).pending() == old(self).pending(),
    {
        self.notification_handler.unregister(name);
    }

    /// The slot serving a request kind, if any.
    pub fn request_slot(&self, name: &Vec<u8>) -> (r: Option<HandlerKind>)
        requires
            self.wf(),
        ensures
            r == if self.req_slots().has_slot(name@) {
                Some(self.req_slots().kind_of(name@))
            } else {
                None::<HandlerKind>
            },
    {
        self.request_handler.get(name)
    }

    /// The slot serving a notification kind, if any.
    pub fn notification_slot(&self, name: &Vec<u8>) -> (r: Option<HandlerKind>)
        requires
            self.wf(),
        ensures
            r == if self.notif_slots().has_slot(name@) {
                Some(self.notif_slots().kind_of(name@))
            } else {
                None::<HandlerKind>
            },
    {
        self.notification_handler.get(name)
    }

    /// The error response a polling request answers with when its handler
    /// was dropped without responding.
    pub fn unresponded_error(rid: &Vec<u8>, to: Address) -> (r: OutgoingMessage)
        ensures
            r.to == to,
            r.message@ == encode_response_spec(
                rid@,
                to,
                Some(spec_msg_no_response()),
                seq![123u8, 125u8],
            ),
    {
        let msg = msg_no_response();
        OutgoingMessage::new_error_response(rid, to, &msg)
    }

    /// A table edit that did not touch any destination's direct link
    /// keeps the connection lock-step.
    proof fn lemma_conn_direct_preserved(&self, pre: RpcInner)
        requires
            pre.wf(),
            self.connections@ == pre.connections@,
            self.set.wf(),
            forall|a: Address|
                #[trigger] self.set.vias_of(a).contains_key(Via::Direct) == pre.set.vias_of(
                    a,
                ).contains_key(Via::Direct),
        ensures
            forall|a: Address|
                #[trigger] self.connections@.contains(a) <==> self.set.routes_via(a, Via::Direct),
    {
        assert forall|a: Address|
            #[trigger] self.connections@.contains(a) <==> self.set.routes_via(a, Via::Direct) by {
            assert(pre.connections@.contains(a) <==> pre.set.routes_via(a, Via::Direct));
        }
    }
}

/// The bytes of `no handler defined for `.
pub open spec fn spec_msg_no_handler_prefix() -> Seq<u8> {
    seq![110u8, 111u8, 32u8, 104u8, 97u8, 110u8, 100u8, 108u8, 101u8, 114u8, 32u8, 100u8, 101u8, 102u8, 105u8, 110u8, 101u8, 100u8, 32u8, 102u8, 111u8, 114u8, 32u8]
}

#[verifier::rlimit(30)]
fn msg_no_handler_prefix() -> (r: Vec<u8>)
    ensures
        r@ == spec_msg_no_handler_prefix(),
{
    let mut v: Vec<u8> = Vec::new();
    v.push(110);
    v.push(111);
    v.push(32);
    v.push(104);
    v.push(97);
    v.push(110);
    v.push(100);
    v.push(108);
    v.push(101);
    v.push(114);
    v.push(32);
    v.push(100);
    v.push(101);
    v.push(102);
    v.push(105);
    v.push(110);
    v.push(101);
    v.push(100);
    v.push(32);
    v.push(102);
    v.push(111);
    v.push(114);
    v.push(32);
    proof {
        assert(v@ =~= spec_msg_no_handler_prefix());
    }
    v
}

/// The bytes of `could not forward message: no connection`.
pub open spec fn spec_msg_no_forwarder() -> Seq<u8> {
    seq![99u8, 111u8, 117u8, 108u8, 100u8, 32u8, 110u8, 111u8, 116u8, 32u8, 102u8, 111u8, 114u8, 119u8, 97u8, 114u8, 100u8, 32u8, 109u8, 101u8, 115u8, 115u8, 97u8, 103u8, 101u8, 58u8, 32u8, 110u8, 111u8, 32u8, 99u8, 111u8, 110u8, 110u8, 101u8, 99u8, 116u8, 105u8, 111u8, 110u8]
}

#[verifier::rlimit(30)]
fn msg_no_forwarder() -> (r: Vec<u8>)
    ensures
        r@ == spec_msg_no_forwarder(),
{
    let mut v: Vec<u8> = Vec::new();
    v.push(99);
    v.push(111);
    v.push(117);
    v.push(108);
    v.push(100);
    v.push(32);
    v.push(110);
    v.push(111);
    v.push(116);
    v.push(32);
    v.push(102);
    v.push(111);
    v.push(114);
    v.push(119);
    v.push(97);
    v.push(114);
    v.push(100);
    v.push(32);
    v.push(109);
    v.push(101);
    v.push(115);
    v.push(115);
    v.push(97);
    v.push(103);
    v.push(101);
    v.push(58);
    v.push(32);
    v.push(110);
    v.push(111);
    v.push(32);
    v.push(99);
    v.push(111);
    v.push(110);
    v.push(110);
    v.push(101);
    v.push(99);
    v.push(116);
    v.push(105);
    v.push(111);
    v.push(110);
    proof {
        assert(v@ =~= spec_msg_no_forwarder());
    }
    v
}

/// The bytes of `no response was provided`.
pub open spec fn spec_msg_no_response() -> Seq<u8> {
    seq![110u8, 111u8, 32u8, 114u8, 101u8, 115u8, 112u8, 111u8, 110u8, 115u8, 101u8, 32u8, 119u8, 97u8, 115u8, 32u8, 112u8, 114u8, 111u8, 118u8, 105u8, 100u8, 101u8, 100u8]
}

#[verifier::rlimit(30)]
fn msg_no_response() -> (r: Vec<u8>)
    ensures
        r@ == spec_msg_no_response(),
{
    let mut v: Vec<u8> = Vec::new();
    v.push(110);
    v.push(111);
    v.push(32);
    v.push(114);
    v.push(101);
    v.push(115);
    v.push(112);
    v.push(111);
    v.push(110);
    v.push(115);
    v.push(101);
    v.push(32);
    v.push(119);
    v.push(97);
    v.push(115);
    v.push(32);
    v.push(112);
    v.push(114);
    v.push(111);
    v.push(118);
    v.push(105);
    v.push(100);
    v.push(101);
    v.push(100);
    proof {
        assert(v@ =~= spec_msg_no_response());
    }
    v
}

/// Whether a buffer may stand inside a JSON string as it is.
fn is_json_safe(v: &Vec<u8>) -> (r: bool)
    ensures
        r == json_safe(v@),
{
    let n = v.len();
    let mut i: usize = 0;
    while i < n
        invariant
            n == v@.len(),
            0 <= i <= n,
            forall|k: int| 0 <= k < i ==> (#[trigger] v@[k]) != 34 && v@[k] != 92 && v@[k] >= 32,
        decreases n - i,
    {
        let c = v[i];
        if c == 34 || c == 92 || c < 32 {
            return false;
        }
        i += 1;
    }
    true
}

/// The "no handler defined" error text; a kind-name that cannot stand in
/// a JSON string is left out rather than quoted wrongly.
pub open spec fn no_handler_msg(name: Seq<u8>) -> Seq<u8> {
    spec_msg_no_handler_prefix() + if json_safe(name) {
        name
    } else {
        Seq::empty()
    }
}

fn build_no_handler_msg(name: &Vec<u8>) -> (r: Vec<u8>)
    ensures
        r@ == no_handler_msg(name@),
{
    let mut v = msg_no_handler_prefix();
    if is_json_safe(name) {
        let n = name.len();
        let ghost base = v@;
        let mut i: usize = 0;
        while i < n
            invariant
                n == name@.len(),
                0 <= i <= n,
                v@ == base + name@.take(i as int),
            decreases n - i,
        {
            v.push(name[i]);
            proof {
                assert(base + name@.take(i as int) + seq![name@[i as int]] =~= base + name@.take(
                    i + 1,
                ));
            }
            i += 1;
        }
        proof {
            assert(base + name@.take(n as int) =~= no_handler_msg(name@));
        }
    } else {
        proof {
            assert(v@ =~= no_handler_msg(name@));
        }
    }
    v
}

/// The cost a new direct peer is told for a destination: the minimum,
/// unless the route goes through that very peer, then the second-best —
/// or nothing, when there is no second-best.
pub open spec fn catch_entry(m: crate::route::MinRtt, to: Address) -> Option<Rtt> {
    if m.via == Via::Address(to) {
        m.second_best
    } else {
        Some(m.rtt)
    }
}

impl RpcInner {
    /// Open a direct link: record the direct route, remember the
    /// connection, and compute the catch-up announcements that tell the
    /// new peer every destination already known. An already-connected
    /// peer is left alone.
    #[verifier::rlimit(80)]
    pub fn add_direct(&mut self, to: Address, rtt: Rtt) -> (r: Option<(
        Vec<RouteEvent>,
        Vec<AddForwarded>,
    )>)
        requires
            old(self).wf(),
        ensures
            final(self).wf(),
            old(self).conns().contains(to) ==> r == None::<(Vec<RouteEvent>, Vec<AddForwarded>)>
                && *final(self) == *old(self),
            !old(self).conns().contains(to) ==> match r {
                Some(p) => {
                    &&& final(self).route_set()@ == route_inc_map(
                        old(self).route_set()@,
                        to,
                        Via::Direct,
                        rtt,
                    )
                    &&& p.0@ == spec_inc_events(
                        old(self).route_set(),
                        final(self).route_set(),
                        to,
                        Via::Direct,
                        rtt,
                    )
                    &&& others_unchanged(old(self).route_set(), final(self).route_set(), to)
                    &&& final(self).conns() == old(self).conns().push(to)
                    &&& forall|k: int|
                        0 <= k < p.1@.len() ==> final(self).route_set().has_spec(
                            (#[trigger] p.1@[k]).to,
                        ) && Some(p.1@[k].rtt) == catch_entry(
                            final(self).route_set().min_of(p.1@[k].to),
                            to,
                        )
                },
                None => false,
            },
            final(self).me_spec() == old(self).me_spec(),
            final(self).req_slots() == old(self).req_slots(),
            final(self).notif_slots() == old(self).notif_slots(),
            final(self).pending() == old(self).pending(),
    {
        if self.is_connected(to) {
            return None;
        }
        proof {
            assert(!old(self).route_set().vias_of(to).contains_key(Via::Direct));
        }
        let ev = self.set.on_add_direct_connection(to, rtt);
        self.connections.push(to);
        proof {
            let pre = *old(self);
            assert(self.set.vias_list(to) == pre.set.vias_list(to).push((Via::Direct, rtt)));
            crate::kv::lemma_to_map_push(pre.set.vias_list(to), Via::Direct, rtt);
            assert(self.set.vias_of(to).contains_key(Via::Direct));
            assert(self.connections@ =~= pre.connections@.push(to));
            assert forall|i: int, j: int|
                0 <= i < j < self.connections@.len() implies self.connections@[i]
                != self.connections@[j] by {
                if j == self.connections@.len() - 1 {
                    assert(self.connections@[i] == pre.connections@[i]);
                    if self.connections@[i] == to {
                        assert(pre.connections@.contains(to));
                    }
                }
            }
            assert forall|a: Address|
                #[trigger] self.connections@.contains(a) <==> self.set.routes_via(
                a,
                Via::Direct,
            ) by {
                if a != to {
                    assert(self.set.vias_list(a) == pre.set.vias_list(a));
                    assert(pre.connections@.contains(a) <==> pre.set.routes_via(a, Via::Direct));
                    assert(self.connections@.contains(a) <==> pre.connections@.contains(a)) by {
                        if self.connections@.contains(a) {
                            let j = choose|j: int|
                                0 <= j < self.connections@.len() && self.connections@[j] == a;
                            assert(pre.connections@[j] == a);
                        }
                        if pre.connections@.contains(a) {
                            let j = choose|j: int|
                                0 <= j < pre.connections@.len() && pre.connections@[j] == a;
                            assert(self.connections@[j] == a);
                        }
                    }
                } else {
                    assert(self.connections@[self.connections@.len() - 1] == to);
                }
            }
        }
        let catchup = self.catch_up_for(to);
        Some((ev, catchup))
    }

    /// The catch-up announcements for a freshly connected peer: each names
    /// a known destination and the cost the peer may reach it at.
    fn catch_up_for(&self, to: Address) -> (catchup: Vec<AddForwarded>)
        requires
            self.wf(),
        ensures
            forall|k: int|
                0 <= k < catchup@.len() ==> self.route_set().has_spec((#[trigger] catchup@[k]).to)
                    && Some(catchup@[k].rtt) == catch_entry(
                    self.route_set().min_of(catchup@[k].to),
                    to,
                ),
    {
        let rows = self.set.list();
        let mut catchup: Vec<AddForwarded> = Vec::new();
        let n = rows.len();
        let mut i: usize = 0;
        while i < n
            invariant
                n == rows@.len(),
                0 <= i <= n,
                forall|j: int|
                    0 <= j < rows@.len() ==> (#[trigger] rows@[j]).1 == self.route_set().min_of(
                        rows@[j].0,
                    ) && self.route_set().has_spec(rows@[j].0),
                forall|k: int|
                    0 <= k < catchup@.len() ==> self.route_set().has_spec(
                        (#[trigger] catchup@[k]).to,
                    ) && Some(catchup@[k].rtt) == catch_entry(
                        self.route_set().min_of(catchup@[k].to),
                        to,
                    ),
            decreases n - i,
        {
            let (a, m) = rows[i];
            let hit_via = match m.via {
                Via::Address(x) => x == to,
                Via::Direct => false,
            };
            if hit_via {
                match m.second_best {
                    Some(s) => {
                        catchup.push(AddForwarded { to: a, rtt: s });
                    },
                    None => {},
                }
            } else {
                catchup.push(AddForwarded { to: a, rtt: m.rtt });
            }
            i += 1;
        }
        catchup
    }
}

} // verus!
