use bifrostlink::internal::{AddForwarded, RemoveForwarded};
use bifrostlink::internal::{fanout_added, fanout_unseconded};
use bifrostlink::packet::{decode_packet, OpaquePacket, OutgoingMessage};
use bifrostlink::registry::HandlerKind;
use bifrostlink::route::{ConnectionAdded, MinRtt, MinRttUpdated, RouteEvent, RouteSet, Rtt, Via,
    ViaListUnseconded};
use bifrostlink::rpc::{FrameDisposition, RpcInner};
use bifrostlink::Address;

fn payload(s: &str) -> Vec<u8> {
    s.as_bytes().to_vec()
}

#[test]
fn route_set_inc_dec_roundtrip() {
    let mut set = RouteSet::new();
    let ev = set.inc(Address::Popup, Via::Address(Address::Background), Rtt(7));
    assert_eq!(ev.len(), 1);
    assert!(matches!(ev[0], RouteEvent::ConnectionAdded(ConnectionAdded {
        to: Address::Popup,
        via: Via::Address(Address::Background),
        rtt: Rtt(7),
    })));
    assert!(set.has(Address::Popup));
    let ev = set.dec(Address::Popup, Via::Address(Address::Background));
    assert_eq!(ev.len(), 1);
    assert!(matches!(ev[0], RouteEvent::ConnectionRemoved(_)));
    assert!(!set.has(Address::Popup));
}

#[test]
fn route_set_duplicate_inc_is_noop() {
    let mut set = RouteSet::new();
    set.inc(Address::Popup, Via::Direct, Rtt(5));
    let ev = set.inc(Address::Popup, Via::Direct, Rtt(9));
    assert!(ev.is_empty());
    let list = set.list();
    assert_eq!(list.len(), 1);
    assert_eq!(list[0].1.rtt, Rtt(5));
}

#[test]
fn route_set_second_via_and_min() {
    let mut set = RouteSet::new();
    set.inc(Address::Popup, Via::Address(Address::Background), Rtt(6));
    let ev = set.inc(Address::Popup, Via::Direct, Rtt(100));
    // a second via: the seconded event, then the summary change
    assert_eq!(ev.len(), 2);
    match &ev[0] {
        RouteEvent::ViaListSeconded(s) => {
            assert_eq!(s.for_connection, Address::Popup);
            assert_eq!(s.initial_via, Via::Address(Address::Background));
            assert_eq!(s.added_via, Via::Direct);
            assert_eq!(s.rtt, Rtt(6));
        },
        other => panic!("expected ViaListSeconded, got {other:?}"),
    }
    match &ev[1] {
        RouteEvent::MinRttUpdated(u) => {
            assert_eq!(u.for_address, Address::Popup);
            assert_eq!(u.rtt.via, Via::Address(Address::Background));
            assert_eq!(u.rtt.rtt, Rtt(6));
            assert_eq!(u.rtt.second_best, Some(Rtt(100)));
            assert!(!u.first_changed);
            assert!(u.second_changed);
        },
        other => panic!("expected MinRttUpdated, got {other:?}"),
    }
}

#[test]
fn route_set_update_changes_min() {
    let mut set = RouteSet::new();
    set.inc(Address::Popup, Via::Address(Address::Background), Rtt(6));
    set.inc(Address::Popup, Via::Direct, Rtt(100));
    let ev = set.update(Address::Popup, Via::Direct, Rtt(2));
    assert_eq!(ev.len(), 1);
    match &ev[0] {
        RouteEvent::MinRttUpdated(u) => {
            assert_eq!(u.rtt.via, Via::Direct);
            assert_eq!(u.rtt.rtt, Rtt(2));
            assert_eq!(u.rtt.second_best, Some(Rtt(6)));
            assert!(u.first_changed);
            assert!(u.second_changed);
        },
        other => panic!("expected MinRttUpdated, got {other:?}"),
    }
}

#[test]
fn route_set_forwarder_prefers_direct() {
    let mut set = RouteSet::new();
    set.inc(Address::Popup, Via::Address(Address::Background), Rtt(1));
    set.inc(Address::Popup, Via::Direct, Rtt(100));
    assert_eq!(set.forwarder_for(Address::Popup, &Vec::new()), Some(Via::Direct));
}

#[test]
fn route_set_forwarder_respects_blacklist() {
    let mut set = RouteSet::new();
    set.inc(Address::Popup, Via::Address(Address::Background), Rtt(1));
    set.inc(Address::Popup, Via::Address(Address::Content), Rtt(5));
    let bl = vec![Via::Address(Address::Background)];
    assert_eq!(set.forwarder_for(Address::Popup, &bl), Some(Via::Address(Address::Content)));
    let bl2 = vec![Via::Address(Address::Background), Via::Address(Address::Content)];
    assert_eq!(set.forwarder_for(Address::Popup, &bl2), None);
}

#[test]
fn route_set_provenance_rules() {
    let mut set = RouteSet::new();
    set.inc(Address::Popup, Via::Address(Address::Background), Rtt(7));
    // a frame straight from its sender is always plausible
    assert!(set.may_be_forwarder_for(Via::Address(Address::Popup), Address::Popup));
    // a recorded via for the sender is plausible
    assert!(set.may_be_forwarder_for(Via::Address(Address::Background), Address::Popup));
    // anything else is not
    assert!(!set.may_be_forwarder_for(Via::Address(Address::Injected), Address::Popup));
}

#[test]
fn inverse_index_tracks_forwarded() {
    let mut set = RouteSet::new();
    set.inc(Address::Popup, Via::Address(Address::Background), Rtt(7));
    set.inc(Address::Content, Via::Address(Address::Background), Rtt(9));
    let through = set.forwarded(Via::Address(Address::Background)).unwrap();
    assert_eq!(through.len(), 2);
    assert!(through.contains(&Address::Popup));
    assert!(through.contains(&Address::Content));
    assert!(set.forwarded(Via::Address(Address::Injected)).is_none());
}

#[test]
fn envelope_roundtrip_request() {
    let msg = OutgoingMessage::new_request(
        Address::Native,
        Address::Popup,
        &payload("Echo"),
        &payload("rid-1"),
        &payload(r#"{"msg":"hi"}"#),
    );
    assert_eq!(msg.to, Address::Popup);
    match decode_packet(&msg.message) {
        Some(OpaquePacket::Request { sender, receiver, request, response }) => {
            assert_eq!(sender, Address::Native);
            assert_eq!(receiver, Address::Popup);
            assert_eq!(request, payload("Echo"));
            assert_eq!(response, Some(payload("rid-1")));
        },
        other => panic!("expected a request packet, got {other:?}"),
    }
    // the frame is a plain JSON object with the routing fields
    let v: serde_json::Value = serde_json::from_slice(&msg.message).unwrap();
    assert_eq!(v["sender"], "Native");
    assert_eq!(v["receiver"], "Popup");
    assert_eq!(v["request"], "Echo");
    assert_eq!(v["response"]["rid"], "rid-1");
    assert_eq!(v["msg"], "hi");
}

#[test]
fn envelope_roundtrip_notification_and_response() {
    let msg = OutgoingMessage::new_notification(
        Address::Background,
        Address::Injected,
        &payload("Report"),
        &payload("{}"),
    );
    match decode_packet(&msg.message) {
        Some(OpaquePacket::Request { sender, receiver, request, response }) => {
            assert_eq!(sender, Address::Background);
            assert_eq!(receiver, Address::Injected);
            assert_eq!(request, payload("Report"));
            assert_eq!(response, None);
        },
        other => panic!("expected a notification packet, got {other:?}"),
    }
    let ok = OutgoingMessage::new_response(&payload("rid-2"), Address::Native, &payload(r#"{"x":1}"#));
    match decode_packet(&ok.message) {
        Some(OpaquePacket::Response { rid, request_origin, error }) => {
            assert_eq!(rid, payload("rid-2"));
            assert_eq!(request_origin, Address::Native);
            assert_eq!(error, None);
        },
        other => panic!("expected a response packet, got {other:?}"),
    }
    let err = OutgoingMessage::new_error_response(&payload("rid-3"), Address::Native, &payload("boom"));
    match decode_packet(&err.message) {
        Some(OpaquePacket::Response { rid, error, .. }) => {
            assert_eq!(rid, payload("rid-3"));
            assert_eq!(error, Some(payload("boom")));
        },
        other => panic!("expected an error response packet, got {other:?}"),
    }
}

#[test]
fn malformed_frames_do_not_decode() {
    assert!(decode_packet(&payload("not json at all")).is_none());
    assert!(decode_packet(&payload(r#"{"who":"?"}"#)).is_none());
    assert!(decode_packet(&Vec::new()).is_none());
}

#[test]
fn two_node_request_response() {
    // N1 and N2 connected directly; an Echo callback on N2 returns its input.
    let mut n1 = RpcInner::new(Address::Native);
    let mut n2 = RpcInner::new(Address::Background);
    n1.add_direct(Address::Background, Rtt(10)).unwrap();
    n2.add_direct(Address::Native, Rtt(10)).unwrap();
    n2.register_request_handler(payload("Echo"));

    let (msg, rid) = n1.request(Address::Background, &payload("Echo"), &payload(r#"{"msg":"hi"}"#));
    assert_eq!(msg.to, Address::Background);
    assert_eq!(n1.forwarder_for(Address::Background, &Vec::new()), Some(Address::Background));

    // the frame reaches N2 over the direct link
    let d = n2.handle_frame(Address::Native, &msg.message);
    let (kind, request, sender, req_rid) = match d {
        FrameDisposition::Deliver { kind, request, sender, rid } => (kind, request, sender, rid),
        other => panic!("expected delivery, got {other:?}"),
    };
    assert_eq!(kind, HandlerKind::Callback { blocking: false });
    assert_eq!(request, payload("Echo"));
    assert_eq!(sender, Address::Native);
    let req_rid = req_rid.unwrap();
    assert_eq!(req_rid, rid);

    // the callback echoes the payload back
    let reply = OutgoingMessage::new_response(&req_rid, sender, &payload(r#"{"msg":"hi"}"#));
    let d = n1.handle_frame(Address::Background, &reply.message);
    match d {
        FrameDisposition::CompletedResponse { rid: got, error } => {
            assert_eq!(got, rid);
            assert_eq!(error, None);
        },
        other => panic!("expected a completed response, got {other:?}"),
    }
    // a duplicate of the same response is late now
    let d = n1.handle_frame(Address::Background, &reply.message);
    assert!(matches!(d, FrameDisposition::LateResponse { .. }));
}

#[test]
fn three_node_forwarding() {
    // A—B (5ms) and B—C (7ms); B announces C to A.
    let mut a = RpcInner::new(Address::Native);
    let mut b = RpcInner::new(Address::Background);
    let mut c = RpcInner::new(Address::Popup);
    a.add_direct(Address::Background, Rtt(5)).unwrap();
    b.add_direct(Address::Native, Rtt(5)).unwrap();
    b.add_direct(Address::Popup, Rtt(7)).unwrap();
    c.add_direct(Address::Background, Rtt(7)).unwrap();
    a.apply_add_forwarded(Address::Background, AddForwarded { to: Address::Popup, rtt: Rtt(7) })
        .unwrap();
    c.apply_add_forwarded(Address::Background, AddForwarded { to: Address::Native, rtt: Rtt(5) })
        .unwrap();
    c.register_request_handler(payload("Ping"));

    // A's chosen next hop for C is B, and symmetrically
    assert_eq!(a.forwarder_for(Address::Popup, &Vec::new()), Some(Address::Background));
    assert_eq!(c.forwarder_for(Address::Native, &Vec::new()), Some(Address::Background));

    let (msg, _rid) = a.request(Address::Popup, &payload("Ping"), &payload("{}"));
    // B does not terminate the frame: it forwards it unchanged toward C
    let d = b.handle_frame(Address::Native, &msg.message);
    match d {
        FrameDisposition::Forward { next } => assert_eq!(next, Address::Popup),
        other => panic!("expected forwarding, got {other:?}"),
    }
    // C terminates it; the envelope still names A and C
    let d = c.handle_frame(Address::Background, &msg.message);
    match d {
        FrameDisposition::Deliver { sender, .. } => assert_eq!(sender, Address::Native),
        other => panic!("expected delivery, got {other:?}"),
    }
}

#[test]
fn loop_rejection() {
    // A knows C only through B; a frame claiming sender C arriving over an
    // unrelated link is rejected by the provenance check.
    let mut a = RpcInner::new(Address::Native);
    a.add_direct(Address::Background, Rtt(5)).unwrap();
    a.apply_add_forwarded(Address::Background, AddForwarded { to: Address::Popup, rtt: Rtt(7) })
        .unwrap();
    let frame = OutgoingMessage::new_request(
        Address::Popup,
        Address::Native,
        &payload("Ping"),
        &payload("rid-9"),
        &payload("{}"),
    );
    let d = a.handle_frame(Address::Injected, &frame.message);
    assert!(matches!(d, FrameDisposition::ProvenanceRejected));
    // over the link it was announced on, the same frame passes
    let d = a.handle_frame(Address::Background, &frame.message);
    assert!(!matches!(d, FrameDisposition::ProvenanceRejected));
}

#[test]
fn second_best_promotion() {
    // A reaches C through B at 6 and directly at 100; losing the direct
    // link falls back to the second-best.
    let mut a = RpcInner::new(Address::Native);
    a.add_direct(Address::Background, Rtt(5)).unwrap();
    a.apply_add_forwarded(Address::Background, AddForwarded { to: Address::Popup, rtt: Rtt(6) })
        .unwrap();
    let (_ev, _catchup) = a.add_direct(Address::Popup, Rtt(100)).unwrap();

    let ev = a.remove_direct(Address::Popup);
    let mut unseconded = None;
    let mut min_updated = None;
    for e in ev {
        match e {
            RouteEvent::ViaListUnseconded(u) => unseconded = Some(u),
            RouteEvent::MinRttUpdated(u) => min_updated = Some(u),
            _ => {},
        }
    }
    let unseconded = unseconded.expect("a ViaListUnseconded event");
    assert_eq!(unseconded.for_connection, Address::Popup);
    assert_eq!(unseconded.only_via, Via::Address(Address::Background));
    let min_updated = min_updated.expect("a MinRttUpdated event");
    assert_eq!(min_updated.rtt.via, Via::Address(Address::Background));
    assert_eq!(min_updated.rtt.rtt, Rtt(6));
    assert_eq!(min_updated.rtt.second_best, None);
    assert!(!min_updated.first_changed);
    assert!(min_updated.second_changed);

    // the retraction goes to the one neighbor the surviving route uses
    let targets = fanout_unseconded(
        &a.connections_list(),
        ViaListUnseconded { for_connection: Address::Popup, only_via: unseconded.only_via },
    );
    assert_eq!(targets.len(), 1);
    assert_eq!(targets[0].0, Address::Background);
    assert_eq!(targets[0].1, RemoveForwarded { to: Address::Popup });
}

#[test]
fn add_forwarded_fanout_exactly_one() {
    // B already connected to A; adding the direct link B—C makes A hear of
    // C exactly once, at the link's cost.
    let mut b = RpcInner::new(Address::Background);
    b.add_direct(Address::Native, Rtt(5)).unwrap();
    let (ev, _catchup) = b.add_direct(Address::Popup, Rtt(7)).unwrap();
    assert_eq!(ev.len(), 1);
    let added = match &ev[0] {
        RouteEvent::ConnectionAdded(e) => *e,
        other => panic!("expected ConnectionAdded, got {other:?}"),
    };
    assert_eq!(added.to, Address::Popup);
    assert_eq!(added.rtt, Rtt(7));
    let out = fanout_added(&b.connections_list(), added);
    assert_eq!(out.len(), 1);
    assert_eq!(out[0].0, Address::Native);
    assert_eq!(out[0].1, AddForwarded { to: Address::Popup, rtt: Rtt(7) });
}

#[test]
fn add_direct_catch_up_respects_second_best() {
    // when the only route to a destination goes through the new peer and
    // has no second-best, the catch-up says nothing about it
    let mut b = RpcInner::new(Address::Background);
    b.add_direct(Address::Native, Rtt(5)).unwrap();
    b.apply_add_forwarded(Address::Native, AddForwarded { to: Address::Content, rtt: Rtt(3) })
        .unwrap();
    let (_ev, catchup) = b.add_direct(Address::Popup, Rtt(7)).unwrap();
    // the new peer hears of Native (direct, 5), Content (through Native, 3)
    // and Popup itself (direct, 7)
    let mut seen: Vec<(Address, Rtt)> = catchup.iter().map(|a| (a.to, a.rtt)).collect();
    seen.sort_by_key(|p| format!("{:?}", p.0));
    assert!(seen.contains(&(Address::Native, Rtt(5))));
    assert!(seen.contains(&(Address::Content, Rtt(3))));

    // and a fresh peer whose only route to some destination runs through
    // itself gets the second-best or nothing
    let mut d = RpcInner::new(Address::Content);
    d.add_direct(Address::Popup, Rtt(9)).unwrap();
    d.apply_add_forwarded(Address::Popup, AddForwarded { to: Address::Injected, rtt: Rtt(2) })
        .unwrap();
    d.remove_direct(Address::Popup);
    assert_eq!(d.forwarder_for(Address::Injected, &Vec::new()), None);
}

#[test]
fn remove_direct_purges_through_routes() {
    let mut a = RpcInner::new(Address::Native);
    a.add_direct(Address::Background, Rtt(5)).unwrap();
    a.apply_add_forwarded(Address::Background, AddForwarded { to: Address::Popup, rtt: Rtt(7) })
        .unwrap();
    a.apply_add_forwarded(Address::Background, AddForwarded { to: Address::Content, rtt: Rtt(9) })
        .unwrap();
    assert!(a.has_route(Address::Popup));
    assert!(a.has_route(Address::Content));
    a.remove_direct(Address::Background);
    // the link and every route through it are gone
    assert!(!a.has_route(Address::Background));
    assert!(!a.has_route(Address::Popup));
    assert!(!a.has_route(Address::Content));
}

#[test]
fn no_handler_earns_error_reply() {
    let mut n = RpcInner::new(Address::Background);
    n.add_direct(Address::Native, Rtt(5)).unwrap();
    let frame = OutgoingMessage::new_request(
        Address::Native,
        Address::Background,
        &payload("Nope"),
        &payload("rid-7"),
        &payload("{}"),
    );
    let d = n.handle_frame(Address::Native, &frame.message);
    let reply = match d {
        FrameDisposition::NoHandler { reply } => reply.expect("requests earn a reply"),
        other => panic!("expected no-handler, got {other:?}"),
    };
    assert_eq!(reply.to, Address::Native);
    match decode_packet(&reply.message) {
        Some(OpaquePacket::Response { rid, error, .. }) => {
            assert_eq!(rid, payload("rid-7"));
            assert_eq!(error, Some(payload("no handler defined for Nope")));
        },
        other => panic!("expected an error response, got {other:?}"),
    }
    // a notification for an unserved kind earns nothing
    let note = OutgoingMessage::new_notification(
        Address::Native,
        Address::Background,
        &payload("Nope"),
        &payload("{}"),
    );
    let d = n.handle_frame(Address::Native, &note.message);
    assert!(matches!(d, FrameDisposition::NoHandler { reply: None }));
}

#[test]
fn no_forwarder_earns_error_reply() {
    let mut b = RpcInner::new(Address::Background);
    b.add_direct(Address::Native, Rtt(5)).unwrap();
    // a request for Popup, which B has no route to
    let frame = OutgoingMessage::new_request(
        Address::Native,
        Address::Popup,
        &payload("Ping"),
        &payload("rid-8"),
        &payload("{}"),
    );
    let d = b.handle_frame(Address::Native, &frame.message);
    let reply = match d {
        FrameDisposition::NoRoute { reply } => reply.expect("requests earn a reply"),
        other => panic!("expected no-route, got {other:?}"),
    };
    assert_eq!(reply.to, Address::Native);
    match decode_packet(&reply.message) {
        Some(OpaquePacket::Response { error, .. }) => {
            assert_eq!(error, Some(payload("could not forward message: no connection")));
        },
        other => panic!("expected an error response, got {other:?}"),
    }
}

#[test]
fn polling_drop_then_reregister() {
    let mut n = RpcInner::new(Address::Background);
    assert!(n.register_polling_request_handler(payload("Foo")));
    assert!(!n.register_polling_request_handler(payload("Foo")));
    // the stream's destructor unregisters; after that the kind is free
    n.unregister_polling_request_handler(&payload("Foo"));
    assert!(n.register_polling_request_handler(payload("Foo")));
}

#[test]
fn unresponded_polling_request_sends_error() {
    let mut n1 = RpcInner::new(Address::Native);
    let mut n2 = RpcInner::new(Address::Background);
    n1.add_direct(Address::Background, Rtt(10)).unwrap();
    n2.add_direct(Address::Native, Rtt(10)).unwrap();
    assert!(n2.register_polling_request_handler(payload("Foo")));

    let (msg, rid) = n1.request(Address::Background, &payload("Foo"), &payload("{}"));
    let d = n2.handle_frame(Address::Native, &msg.message);
    let (kind, sender, req_rid) = match d {
        FrameDisposition::Deliver { kind, sender, rid, .. } => (kind, sender, rid),
        other => panic!("expected delivery, got {other:?}"),
    };
    assert_eq!(kind, HandlerKind::Polling);
    // the application pulls the request from the stream and drops it
    // without responding; the wrapper's destructor answers for it
    let auto = RpcInner::unresponded_error(&req_rid.unwrap(), sender);
    let d = n1.handle_frame(Address::Background, &auto.message);
    match d {
        FrameDisposition::CompletedResponse { rid: got, error } => {
            assert_eq!(got, rid);
            assert_eq!(error, Some(payload("no response was provided")));
        },
        other => panic!("expected a completed response, got {other:?}"),
    }
}

#[test]
fn request_ids_are_uuids() {
    let mut n = RpcInner::new(Address::Native);
    let (_m1, r1) = n.request(Address::Background, &payload("Echo"), &payload("{}"));
    let (_m2, r2) = n.request(Address::Background, &payload("Echo"), &payload("{}"));
    assert_eq!(r1.len(), 36);
    assert_eq!(r2.len(), 36);
    assert_ne!(r1, r2);
    for b in &r1 {
        assert!(*b == b'-' || b.is_ascii_digit() || (b'a'..=b'f').contains(b));
    }
}

#[test]
fn update_for_picks_the_right_cost() {
    let u = MinRttUpdated {
        for_address: Address::Popup,
        rtt: MinRtt {
            via: Via::Address(Address::Background),
            rtt: Rtt(6),
            second_best: Some(Rtt(100)),
        },
        first_changed: true,
        second_changed: true,
    };
    // a neighbor off the best path hears the minimum
    let r = u.update_for(Address::Content).unwrap();
    assert_eq!(r.to, Address::Popup);
    assert_eq!(r.rtt, Rtt(6));
    // the neighbor the best path runs through hears the second-best
    let r = u.update_for(Address::Background).unwrap();
    assert_eq!(r.rtt, Rtt(100));
    // and nothing when there is none
    let u2 = MinRttUpdated {
        rtt: MinRtt { second_best: None, ..u.rtt },
        ..u
    };
    assert!(u2.update_for(Address::Background).is_none());
    // nothing, too, when the relevant side did not change
    let u3 = MinRttUpdated { first_changed: false, ..u };
    assert!(u3.update_for(Address::Content).is_none());
}
