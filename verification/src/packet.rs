//! The wire envelope codec. A frame is one JSON object of one of two
//! shapes: a request / notification (`sender`, `receiver`, `request`,
//! `response`) or a response (`rid`, `request_origin`, `error`), each
//! flat-merged with the user payload's own fields. The encoder writes the
//! routing fields first, in a fixed order; the opaque decoder reads them
//! back and leaves the payload untouched for the handler that knows its
//! type.

use vstd::prelude::*;

use crate::Address;

verus! {

/// The bytes of `{"sender":"`.
pub open spec fn spec_head_request() -> Seq<u8> {
    seq![123u8, 34u8, 115u8, 101u8, 110u8, 100u8, 101u8, 114u8, 34u8, 58u8, 34u8]
}

fn head_request() -> (r: Vec<u8>)
    ensures
        r@ == spec_head_request(),
{
    let mut v: Vec<u8> = Vec::new();
    v.push(123);
    v.push(34);
    v.push(115);
    v.push(101);
    v.push(110);
    v.push(100);
    v.push(101);
    v.push(114);
    v.push(34);
    v.push(58);
    v.push(34);
    proof {
        assert(v@ =~= spec_head_request());
    }
    v
}

/// The bytes of `{"rid":"`.
pub open spec fn spec_head_response() -> Seq<u8> {
    seq![123u8, 34u8, 114u8, 105u8, 100u8, 34u8, 58u8, 34u8]
}

fn head_response() -> (r: Vec<u8>)
    ensures
        r@ == spec_head_response(),
{
    let mut v: Vec<u8> = Vec::new();
    v.push(123);
    v.push(34);
    v.push(114);
    v.push(105);
    v.push(100);
    v.push(34);
    v.push(58);
    v.push(34);
    proof {
        assert(v@ =~= spec_head_response());
    }
    v
}

/// The bytes of `","receiver":"`.
pub open spec fn spec_mid_receiver() -> Seq<u8> {
    seq![34u8, 44u8, 34u8, 114u8, 101u8, 99u8, 101u8, 105u8, 118u8, 101u8, 114u8, 34u8, 58u8, 34u8]
}

fn mid_receiver() -> (r: Vec<u8>)
    ensures
        r@ == spec_mid_receiver(),
{
    let mut v: Vec<u8> = Vec::new();
    v.push(34);
    v.push(44);
    v.push(34);
    v.push(114);
    v.push(101);
    v.push(99);
    v.push(101);
    v.push(105);
    v.push(118);
    v.push(101);
    v.push(114);
    v.push(34);
    v.push(58);
    v.push(34);
    proof {
        assert(v@ =~= spec_mid_receiver());
    }
    v
}

/// The bytes of `","request":"`.
pub open spec fn spec_mid_request() -> Seq<u8> {
    seq![34u8, 44u8, 34u8, 114u8, 101u8, 113u8, 117u8, 101u8, 115u8, 116u8, 34u8, 58u8, 34u8]
}

fn mid_request() -> (r: Vec<u8>)
    ensures
        r@ == spec_mid_request(),
{
    let mut v: Vec<u8> = Vec::new();
    v.push(34);
    v.push(44);
    v.push(34);
    v.push(114);
    v.push(101);
    v.push(113);
    v.push(117);
    v.push(101);
    v.push(115);
    v.push(116);
    v.push(34);
    v.push(58);
    v.push(34);
    proof {
        assert(v@ =~= spec_mid_request());
    }
    v
}

/// The bytes of `","response":`.
pub open spec fn spec_mid_response() -> Seq<u8> {
    seq![34u8, 44u8, 34u8, 114u8, 101u8, 115u8, 112u8, 111u8, 110u8, 115u8, 101u8, 34u8, 58u8]
}

fn mid_response() -> (r: Vec<u8>)
    ensures
        r@ == spec_mid_response(),
{
    let mut v: Vec<u8> = Vec::new();
    v.push(34);
    v.push(44);
    v.push(34);
    v.push(114);
    v.push(101);
    v.push(115);
    v.push(112);
    v.push(111);
    v.push(110);
    v.push(115);
    v.push(101);
    v.push(34);
    v.push(58);
    proof {
        assert(v@ =~= spec_mid_response());
    }
    v
}

/// The bytes of `","request_origin":"`.
pub open spec fn spec_mid_origin() -> Seq<u8> {
    seq![34u8, 44u8, 34u8, 114u8, 101u8, 113u8, 117u8, 101u8, 115u8, 116u8, 95u8, 111u8, 114u8, 105u8, 103u8, 105u8, 110u8, 34u8, 58u8, 34u8]
}

fn mid_origin() -> (r: Vec<u8>)
    ensures
        r@ == spec_mid_origin(),
{
    let mut v: Vec<u8> = Vec::new();
    v.push(34);
    v.push(44);
    v.push(34);
    v.push(114);
    v.push(101);
    v.push(113);
    v.push(117);
    v.push(101);
    v.push(115);
    v.push(116);
    v.push(95);
    v.push(111);
    v.push(114);
    v.push(105);
    v.push(103);
    v.push(105);
    v.push(110);
    v.push(34);
    v.push(58);
    v.push(34);
    proof {
        assert(v@ =~= spec_mid_origin());
    }
    v
}

/// The bytes of `","error":`.
pub open spec fn spec_mid_error() -> Seq<u8> {
    seq![34u8, 44u8, 34u8, 101u8, 114u8, 114u8, 111u8, 114u8, 34u8, 58u8]
}

fn mid_error() -> (r: Vec<u8>)
    ensures
        r@ == spec_mid_error(),
{
    let mut v: Vec<u8> = Vec::new();
    v.push(34);
    v.push(44);
    v.push(34);
    v.push(101);
    v.push(114);
    v.push(114);
    v.push(111);
    v.push(114);
    v.push(34);
    v.push(58);
    proof {
        assert(v@ =~= spec_mid_error());
    }
    v
}

/// The bytes of `null`.
pub open spec fn spec_lit_null() -> Seq<u8> {
    seq![110u8, 117u8, 108u8, 108u8]
}

fn lit_null() -> (r: Vec<u8>)
    ensures
        r@ == spec_lit_null(),
{
    let mut v: Vec<u8> = Vec::new();
    v.push(110);
    v.push(117);
    v.push(108);
    v.push(108);
    proof {
        assert(v@ =~= spec_lit_null());
    }
    v
}

/// The bytes of `{"rid":"`.
pub open spec fn spec_rid_obj_head() -> Seq<u8> {
    seq![123u8, 34u8, 114u8, 105u8, 100u8, 34u8, 58u8, 34u8]
}

fn rid_obj_head() -> (r: Vec<u8>)
    ensures
        r@ == spec_rid_obj_head(),
{
    let mut v: Vec<u8> = Vec::new();
    v.push(123);
    v.push(34);
    v.push(114);
    v.push(105);
    v.push(100);
    v.push(34);
    v.push(58);
    v.push(34);
    proof {
        assert(v@ =~= spec_rid_obj_head());
    }
    v
}

/// The wire name of each endpoint address.
pub open spec fn spec_addr_name(a: Address) -> Seq<u8> {
    match a {
        Address::Native => seq![78u8, 97u8, 116u8, 105u8, 118u8, 101u8],
        Address::Background => seq![66u8, 97u8, 99u8, 107u8, 103u8, 114u8, 111u8, 117u8, 110u8, 100u8],
        Address::Popup => seq![80u8, 111u8, 112u8, 117u8, 112u8],
        Address::Content => seq![67u8, 111u8, 110u8, 116u8, 101u8, 110u8, 116u8],
        Address::Injected => seq![73u8, 110u8, 106u8, 101u8, 99u8, 116u8, 101u8, 100u8],
    }
}

fn addr_name(a: Address) -> (r: Vec<u8>)
    ensures
        r@ == spec_addr_name(a),
{
    let mut v: Vec<u8> = Vec::new();
    match a {

        Address::Native => {
            v.push(78);
            v.push(97);
            v.push(116);
            v.push(105);
            v.push(118);
            v.push(101);
        },
        Address::Background => {
            v.push(66);
            v.push(97);
            v.push(99);
            v.push(107);
            v.push(103);
            v.push(114);
            v.push(111);
            v.push(117);
            v.push(110);
            v.push(100);
        },
        Address::Popup => {
            v.push(80);
            v.push(111);
            v.push(112);
            v.push(117);
            v.push(112);
        },
        Address::Content => {
            v.push(67);
            v.push(111);
            v.push(110);
            v.push(116);
            v.push(101);
            v.push(110);
            v.push(116);
        },
        Address::Injected => {
            v.push(73);
            v.push(110);
            v.push(106);
            v.push(101);
            v.push(99);
            v.push(116);
            v.push(101);
            v.push(100);
        },
    }
    proof {
        assert(v@ =~= spec_addr_name(a));
    }
    v
}

/// Bytes that may stand inside a JSON string without escaping: no quote,
/// no backslash, no control characters.
pub open spec fn json_safe(s: Seq<u8>) -> bool {
    forall|i: int| 0 <= i < s.len() ==> (#[trigger] s[i]) != 34 && s[i] != 92 && s[i] >= 32
}

/// A payload rides along as the fields of one serialized JSON object.
pub open spec fn payload_ok(p: Seq<u8>) -> bool {
    p.len() >= 2 && p[0] == 123 && p[p.len() - 1] == 125
}

/// The payload's contribution to the envelope: nothing for the empty
/// object, else a comma and the object's interior.
pub open spec fn spec_payload_part(p: Seq<u8>) -> Seq<u8> {
    if p.len() <= 2 {
        Seq::empty()
    } else {
        seq![44u8] + p.subrange(1, p.len() - 1)
    }
}

/// The request / notification envelope: routing fields in fixed order,
/// then the payload fields.
pub open spec fn encode_request_spec(
    sender: Address,
    receiver: Address,
    request: Seq<u8>,
    rid: Option<Seq<u8>>,
    payload: Seq<u8>,
) -> Seq<u8> {
    spec_head_request() + spec_addr_name(sender) + spec_mid_receiver() + spec_addr_name(receiver)
        + spec_mid_request() + request + spec_mid_response() + (match rid {
        None => spec_lit_null(),
        Some(i) => spec_rid_obj_head() + i + seq![34u8, 125u8],
    }) + spec_payload_part(payload) + seq![125u8]
}

/// The response envelope: routing fields in fixed order, then the payload
/// fields.
pub open spec fn encode_response_spec(
    rid: Seq<u8>,
    request_origin: Address,
    error: Option<Seq<u8>>,
    payload: Seq<u8>,
) -> Seq<u8> {
    spec_head_response() + rid + spec_mid_origin() + spec_addr_name(request_origin)
        + spec_mid_error() + (match error {
        None => spec_lit_null(),
        Some(e) => seq![34u8] + e + seq![34u8],
    }) + spec_payload_part(payload) + seq![125u8]
}

/// `pat` stands at position `pos` of `b`.
pub open spec fn spec_starts(b: Seq<u8>, pos: int, pat: Seq<u8>) -> bool {
    0 <= pos && pos + pat.len() <= b.len() && b.subrange(pos, pos + pat.len()) == pat
}

/// Read a JSON string body from `pos` to the first quote: the bytes before
/// it and the quote's position.
pub open spec fn spec_scan(b: Seq<u8>, pos: int) -> Option<(Seq<u8>, int)>
    decreases b.len() - pos,
{
    if pos < 0 || pos >= b.len() {
        None
    } else if b[pos] == 34 {
        Some((Seq::empty(), pos))
    } else {
        match spec_scan(b, pos + 1) {
            Some((s, np)) => Some((seq![b[pos]] + s, np)),
            None => None,
        }
    }
}

/// Scanning from `pos` over a quote-free region reaches whatever the scan
/// from the region's end finds, with the region prepended.
pub proof fn lemma_scan_from(b: Seq<u8>, pos: int, i: int)
    requires
        0 <= pos <= i <= b.len(),
        forall|k: int| pos <= k < i ==> (#[trigger] b[k]) != 34,
    ensures
        spec_scan(b, pos) == match spec_scan(b, i) {
            Some((s, np)) => Some((b.subrange(pos, i) + s, np)),
            None => None::<(Seq<u8>, int)>,
        },
    decreases i - pos,
{
    if pos < i {
        lemma_scan_from(b, pos + 1, i);
        match spec_scan(b, i) {
            Some((s, np)) => {
                assert(seq![b[pos]] + (b.subrange(pos + 1, i) + s) =~= b.subrange(pos, i) + s);
            },
            None => {},
        }
    } else {
        match spec_scan(b, i) {
            Some((s, np)) => {
                assert(b.subrange(pos, i) + s =~= s);
            },
            None => {},
        }
    }
}

/// The address a wire name denotes, if any.
pub open spec fn spec_parse_addr(s: Seq<u8>) -> Option<Address> {
    if s == spec_addr_name(Address::Native) {
        Some(Address::Native)
    } else if s == spec_addr_name(Address::Background) {
        Some(Address::Background)
    } else if s == spec_addr_name(Address::Popup) {
        Some(Address::Popup)
    } else if s == spec_addr_name(Address::Content) {
        Some(Address::Content)
    } else if s == spec_addr_name(Address::Injected) {
        Some(Address::Injected)
    } else {
        None
    }
}

/// The routing-relevant view of a frame, payload set aside.
#[derive(Debug)]
pub enum OpaquePacket {
    Response { rid: Vec<u8>, request_origin: Address, error: Option<Vec<u8>> },
    Request { sender: Address, receiver: Address, request: Vec<u8>, response: Option<Vec<u8>> },
}

/// The same, over mathematical sequences.
pub enum PacketModel {
    Response { rid: Seq<u8>, request_origin: Address, error: Option<Seq<u8>> },
    Request { sender: Address, receiver: Address, request: Seq<u8>, response: Option<Seq<u8>> },
}

impl View for OpaquePacket {
    type V = PacketModel;

    open spec fn view(&self) -> PacketModel {
        match *self {
            OpaquePacket::Response { rid, request_origin, error } => PacketModel::Response {
                rid: rid@,
                request_origin,
                error: match error {
                    None => None,
                    Some(e) => Some(e@),
                },
            },
            OpaquePacket::Request { sender, receiver, request, response } => PacketModel::Request {
                sender,
                receiver,
                request: request@,
                response: match response {
                    None => None,
                    Some(i) => Some(i@),
                },
            },
        }
    }
}

/// The packets, if any, a frame decodes to: a response when it opens with
/// the `rid` field, a request when it opens with the `sender` field.
pub open spec fn spec_decode(b: Seq<u8>) -> Option<PacketModel> {
    if spec_starts(b, 0, spec_head_response()) {
        spec_decode_response(b)
    } else if spec_starts(b, 0, spec_head_request()) {
        spec_decode_request(b)
    } else {
        None
    }
}

pub open spec fn spec_decode_response(b: Seq<u8>) -> Option<PacketModel> {
    match spec_scan(b, spec_head_response().len() as int) {
        None => None,
        Some((rid, p1)) => if !spec_starts(b, p1, spec_mid_origin()) {
            None
        } else {
            match spec_scan(b, p1 + spec_mid_origin().len()) {
                None => None,
                Some((oname, p2)) => match spec_parse_addr(oname) {
                    None => None,
                    Some(origin) => if !spec_starts(b, p2, spec_mid_error()) {
                        None
                    } else {
                        let p3 = p2 + spec_mid_error().len();
                        if spec_starts(b, p3, spec_lit_null()) {
                            Some(
                                PacketModel::Response { rid, request_origin: origin, error: None },
                            )
                        } else if 0 <= p3 < b.len() && b[p3] == 34 {
                            match spec_scan(b, p3 + 1) {
                                None => None,
                                Some((e, _)) => Some(
                                    PacketModel::Response {
                                        rid,
                                        request_origin: origin,
                                        error: Some(e),
                                    },
                                ),
                            }
                        } else {
                            None
                        }
                    },
                },
            }
        },
    }
}

pub open spec fn spec_decode_request(b: Seq<u8>) -> Option<PacketModel> {
    match spec_scan(b, spec_head_request().len() as int) {
        None => None,
        Some((sname, p1)) => match spec_parse_addr(sname) {
            None => None,
            Some(sender) => if !spec_starts(b, p1, spec_mid_receiver()) {
                None
            } else {
                match spec_scan(b, p1 + spec_mid_receiver().len()) {
                    None => None,
                    Some((rname, p2)) => match spec_parse_addr(rname) {
                        None => None,
                        Some(receiver) => if !spec_starts(b, p2, spec_mid_request()) {
                            None
                        } else {
                            match spec_scan(b, p2 + spec_mid_request().len()) {
                                None => None,
                                Some((rq, p3)) => if !spec_starts(b, p3, spec_mid_response()) {
                                    None
                                } else {
                                    let p4 = p3 + spec_mid_response().len();
                                    if spec_starts(b, p4, spec_lit_null()) {
                                        Some(
                                            PacketModel::Request {
                                                sender,
                                                receiver,
                                                request: rq,
                                                response: None,
                                            },
                                        )
                                    } else if spec_starts(b, p4, spec_rid_obj_head()) {
                                        match spec_scan(b, p4 + spec_rid_obj_head().len()) {
                                            None => None,
                                            Some((rid, p5)) => if spec_starts(
                                                b,
                                                p5,
                                                seq![34u8, 125u8],
                                            ) {
                                                Some(
                                                    PacketModel::Request {
                                                        sender,
                                                        receiver,
                                                        request: rq,
                                                        response: Some(rid),
                                                    },
                                                )
                                            } else {
                                                None
                                            },
                                        }
                                    } else {
                                        None
                                    }
                                },
                            }
                        },
                    },
                }
            },
        },
    }
}


/// Compare bytes at a position against a pattern.
fn starts_with_at(b: &Vec<u8>, pos: usize, pat: &Vec<u8>) -> (r: bool)
    ensures
        r == spec_starts(b@, pos as int, pat@),
{
    if pos > b.len() || pat.len() > b.len() - pos {
        return false;
    }
    let end = pos + pat.len();
    let mut k: usize = pos;
    while k < end
        invariant
            end == pos + pat@.len(),
            end <= b@.len(),
            pos <= k <= end,
            forall|j: int| 0 <= j < k - pos ==> b@[pos + j] == pat@[j],
        decreases end - k,
    {
        if b[k] != pat[k - pos] {
            proof {
                assert(b@.subrange(pos as int, pos + pat@.len()) != pat@) by {
                    if b@.subrange(pos as int, pos + pat@.len()) == pat@ {
                        assert(b@.subrange(pos as int, pos + pat@.len())[k - pos] == pat@[
                            k - pos
                        ]);
                    }
                }
            }
            return false;
        }
        k += 1;
    }
    proof {
        assert(b@.subrange(pos as int, pos + pat@.len()) =~= pat@);
    }
    true
}

/// Read a JSON string body up to the first quote.
fn scan_string(b: &Vec<u8>, pos: usize) -> (r: Option<(Vec<u8>, usize)>)
    ensures
        match r {
            Some(sp) => spec_scan(b@, pos as int) == Some((sp.0@, sp.1 as int)),
            None => spec_scan(b@, pos as int) == None::<(Seq<u8>, int)>,
        },
{
    let n = b.len();
    let mut out: Vec<u8> = Vec::new();
    let mut i: usize = pos;
    if pos > n {
        return None;
    }
    while i < n
        invariant
            n == b@.len(),
            pos <= i <= n,
            out@ == b@.subrange(pos as int, i as int),
            forall|k: int| pos <= k < i ==> (#[trigger] b@[k]) != 34,
        decreases n - i,
    {
        let c = b[i];
        if c == 34 {
            proof {
                lemma_scan_from(b@, pos as int, i as int);
                assert(b@.subrange(pos as int, i as int) + Seq::<u8>::empty() =~= out@);
            }
            return Some((out, i));
        }
        out.push(c);
        proof {
            assert(out@ =~= b@.subrange(pos as int, i + 1));
        }
        i += 1;
    }
    proof {
        lemma_scan_from(b@, pos as int, n as int);
    }
    None
}

/// Whole-vector byte equality.
fn vec_eq(a: &Vec<u8>, b: &Vec<u8>) -> (r: bool)
    ensures
        r == (a@ == b@),
{
    if a.len() != b.len() {
        return false;
    }
    let n = a.len();
    let mut i: usize = 0;
    while i < n
        invariant
            n == a@.len() == b@.len(),
            0 <= i <= n,
            forall|k: int| 0 <= k < i ==> a@[k] == b@[k],
        decreases n - i,
    {
        if a[i] != b[i] {
            proof {
                if a@ == b@ {
                    assert(a@[i as int] == b@[i as int]);
                }
            }
            return false;
        }
        i += 1;
    }
    proof {
        assert(a@ =~= b@);
    }
    true
}

/// The address a wire name denotes, if any.
fn parse_addr(v: &Vec<u8>) -> (r: Option<Address>)
    ensures
        r == spec_parse_addr(v@),
{
    if vec_eq(v, &addr_name(Address::Native)) {
        Some(Address::Native)
    } else if vec_eq(v, &addr_name(Address::Background)) {
        Some(Address::Background)
    } else if vec_eq(v, &addr_name(Address::Popup)) {
        Some(Address::Popup)
    } else if vec_eq(v, &addr_name(Address::Content)) {
        Some(Address::Content)
    } else if vec_eq(v, &addr_name(Address::Injected)) {
        Some(Address::Injected)
    } else {
        None
    }
}

/// Extract the routing fields of a frame; the payload, if any, stays in
/// the frame for whoever knows its type.
pub fn decode_packet(bytes: &Vec<u8>) -> (r: Option<OpaquePacket>)
    ensures
        match r {
            Some(p) => spec_decode(bytes@) == Some(p@),
            None => spec_decode(bytes@) == None::<PacketModel>,
        },
{
    let head_resp = head_response();
    let head_req = head_request();
    if starts_with_at(bytes, 0, &head_resp) {
        let (rid, p1) = match scan_string(bytes, head_resp.len()) {
            Some(x) => x,
            None => {
                return None;
            },
        };
        let mo = mid_origin();
        if !starts_with_at(bytes, p1, &mo) {
            return None;
        }
        if p1 > bytes.len() - mo.len() {
            // unreachable: the match above put the pattern inside the frame
            return None;
        }
        let (oname, p2) = match scan_string(bytes, p1 + mo.len()) {
            Some(x) => x,
            None => {
                return None;
            },
        };
        let origin = match parse_addr(&oname) {
            Some(a) => a,
            None => {
                return None;
            },
        };
        let me = mid_error();
        if !starts_with_at(bytes, p2, &me) {
            return None;
        }
        if p2 > bytes.len() - me.len() {
            return None;
        }
        let p3 = p2 + me.len();
        if starts_with_at(bytes, p3, &lit_null()) {
            return Some(OpaquePacket::Response { rid, request_origin: origin, error: None });
        }
        if p3 < bytes.len() && bytes[p3] == 34 {
            let (e, _p4) = match scan_string(bytes, p3 + 1) {
                Some(x) => x,
                None => {
                    return None;
                },
            };
            return Some(OpaquePacket::Response { rid, request_origin: origin, error: Some(e) });
        }
        return None;
    }
    if !starts_with_at(bytes, 0, &head_req) {
        return None;
    }
    let (sname, p1) = match scan_string(bytes, head_req.len()) {
        Some(x) => x,
        None => {
            return None;
        },
    };
    let sender = match parse_addr(&sname) {
        Some(a) => a,
        None => {
            return None;
        },
    };
    let mr = mid_receiver();
    if !starts_with_at(bytes, p1, &mr) {
        return None;
    }
    if p1 > bytes.len() - mr.len() {
        return None;
    }
    let (rname, p2) = match scan_string(bytes, p1 + mr.len()) {
        Some(x) => x,
        None => {
            return None;
        },
    };
    let receiver = match parse_addr(&rname) {
        Some(a) => a,
        None => {
            return None;
        },
    };
    let mq = mid_request();
    if !starts_with_at(bytes, p2, &mq) {
        return None;
    }
    if p2 > bytes.len() - mq.len() {
        return None;
    }
    let (rq, p3) = match scan_string(bytes, p2 + mq.len()) {
        Some(x) => x,
        None => {
            return None;
        },
    };
    let ms = mid_response();
    if !starts_with_at(bytes, p3, &ms) {
        return None;
    }
    if p3 > bytes.len() - ms.len() {
        return None;
    }
    let p4 = p3 + ms.len();
    if starts_with_at(bytes, p4, &lit_null()) {
        return Some(
            OpaquePacket::Request { sender, receiver, request: rq, response: None },
        );
    }
    let ro = rid_obj_head();
    if !starts_with_at(bytes, p4, &ro) {
        return None;
    }
    if p4 > bytes.len() - ro.len() {
        return None;
    }
    let (rid, p5) = match scan_string(bytes, p4 + ro.len()) {
        Some(x) => x,
        None => {
            return None;
        },
    };
    let mut close: Vec<u8> = Vec::new();
    close.push(34);
    close.push(125);
    proof {
        assert(close@ =~= seq![34u8, 125u8]);
    }
    if starts_with_at(bytes, p5, &close) {
        return Some(OpaquePacket::Request { sender, receiver, request: rq, response: Some(rid) });
    }
    None
}


fn append_bytes(out: &mut Vec<u8>, s: &Vec<u8>)
    ensures
        final(out)@ == old(out)@ + s@,
{
    let ghost base = out@;
    let n = s.len();
    let mut i: usize = 0;
    while i < n
        invariant
            n == s@.len(),
            0 <= i <= n,
            out@ == base + s@.take(i as int),
        decreases n - i,
    {
        out.push(s[i]);
        proof {
            assert(base + s@.take(i as int) + seq![s@[i as int]] =~= base + s@.take(i + 1));
        }
        i += 1;
    }
    proof {
        assert(base + s@.take(n as int) =~= base + s@);
    }
}

fn append_payload(out: &mut Vec<u8>, p: &Vec<u8>)
    requires
        payload_ok(p@),
    ensures
        final(out)@ == old(out)@ + spec_payload_part(p@),
{
    let ghost base = out@;
    if p.len() <= 2 {
        proof {
            assert(base + spec_payload_part(p@) =~= base);
        }
        return ;
    }
    out.push(44);
    let n = p.len() - 1;
    let mut i: usize = 1;
    while i < n
        invariant
            n == p@.len() - 1,
            p@.len() >= 2,
            1 <= i <= n,
            out@ == base + seq![44u8] + p@.subrange(1, i as int),
        decreases n - i,
    {
        out.push(p[i]);
        proof {
            assert(base + seq![44u8] + p@.subrange(1, i as int) + seq![p@[i as int]] =~= base
                + seq![44u8] + p@.subrange(1, i + 1));
        }
        i += 1;
    }
    proof {
        assert(base + seq![44u8] + p@.subrange(1, n as int) =~= base + spec_payload_part(p@));
    }
}

/// Encode a request or notification envelope around a payload object.
pub fn encode_request(
    sender: Address,
    receiver: Address,
    request: &Vec<u8>,
    rid: Option<&Vec<u8>>,
    payload: &Vec<u8>,
) -> (r: Vec<u8>)
    requires
        payload_ok(payload@),
    ensures
        r@ == encode_request_spec(
            sender,
            receiver,
            request@,
            match rid {
                None => None,
                Some(i) => Some(i@),
            },
            payload@,
        ),
{
    let mut out = head_request();
    append_bytes(&mut out, &addr_name(sender));
    append_bytes(&mut out, &mid_receiver());
    append_bytes(&mut out, &addr_name(receiver));
    append_bytes(&mut out, &mid_request());
    append_bytes(&mut out, request);
    append_bytes(&mut out, &mid_response());
    let ghost base = out@;
    match rid {
        None => {
            append_bytes(&mut out, &lit_null());
        },
        Some(i) => {
            append_bytes(&mut out, &rid_obj_head());
            append_bytes(&mut out, i);
            out.push(34);
            out.push(125);
            proof {
                assert(out@ =~= base + (spec_rid_obj_head() + i@ + seq![34u8, 125u8]));
            }
        },
    }
    append_payload(&mut out, payload);
    out.push(125);
    proof {
        assert(out@ =~= encode_request_spec(
            sender,
            receiver,
            request@,
            match rid {
                None => None,
                Some(i) => Some(i@),
            },
            payload@,
        ));
    }
    out
}

/// Encode a response envelope around a payload object.
pub fn encode_response(
    rid: &Vec<u8>,
    request_origin: Address,
    error: Option<&Vec<u8>>,
    payload: &Vec<u8>,
) -> (r: Vec<u8>)
    requires
        payload_ok(payload@),
    ensures
        r@ == encode_response_spec(
            rid@,
            request_origin,
            match error {
                None => None,
                Some(e) => Some(e@),
            },
            payload@,
        ),
{
    let mut out = head_response();
    append_bytes(&mut out, rid);
    append_bytes(&mut out, &mid_origin());
    append_bytes(&mut out, &addr_name(request_origin));
    append_bytes(&mut out, &mid_error());
    let ghost base = out@;
    match error {
        None => {
            append_bytes(&mut out, &lit_null());
        },
        Some(e) => {
            out.push(34);
            append_bytes(&mut out, e);
            out.push(34);
            proof {
                assert(out@ =~= base + (seq![34u8] + e@ + seq![34u8]));
            }
        },
    }
    append_payload(&mut out, payload);
    out.push(125);
    proof {
        assert(out@ =~= encode_response_spec(
            rid@,
            request_origin,
            match error {
                None => None,
                Some(e) => Some(e@),
            },
            payload@,
        ));
    }
    out
}

/// A frame ready to leave: where it should go, and its bytes.
#[derive(Debug)]
pub struct OutgoingMessage {
    pub to: Address,
    pub message: Vec<u8>,
}

impl OutgoingMessage {
    /// A request envelope; it travels toward its receiver.
    pub fn new_request(
        sender: Address,
        receiver: Address,
        request: &Vec<u8>,
        id: &Vec<u8>,
        data: &Vec<u8>,
    ) -> (r: Self)
        requires
            payload_ok(data@),
        ensures
            r.to == receiver,
            r.message@ == encode_request_spec(sender, receiver, request@, Some(id@), data@),
    {
        OutgoingMessage { to: receiver, message: encode_request(sender, receiver, request, Some(id), data) }
    }

    /// A notification envelope; like a request, but expecting no response.
    pub fn new_notification(
        sender: Address,
        receiver: Address,
        request: &Vec<u8>,
        data: &Vec<u8>,
    ) -> (r: Self)
        requires
            payload_ok(data@),
        ensures
            r.to == receiver,
            r.message@ == encode_request_spec(sender, receiver, request@, None, data@),
    {
        OutgoingMessage { to: receiver, message: encode_request(sender, receiver, request, None, data) }
    }

    /// A successful response envelope; it travels toward the requester.
    pub fn new_response(rid: &Vec<u8>, receiver: Address, data: &Vec<u8>) -> (r: Self)
        requires
            payload_ok(data@),
        ensures
            r.to == receiver,
            r.message@ == encode_response_spec(rid@, receiver, None, data@),
    {
        OutgoingMessage { to: receiver, message: encode_response(rid, receiver, None, data) }
    }

    /// An error response envelope, carrying only the error message.
    pub fn new_error_response(rid: &Vec<u8>, receiver: Address, error: &Vec<u8>) -> (r: Self)
        ensures
            r.to == receiver,
            r.message@ == encode_response_spec(rid@, receiver, Some(error@), seq![123u8, 125u8]),
    {
        let mut p: Vec<u8> = Vec::new();
        p.push(123);
        p.push(125);
        proof {
            assert(p@ =~= seq![123u8, 125u8]);
        }
        OutgoingMessage { to: receiver, message: encode_response(rid, receiver, Some(error), &p) }
    }
}


/// Names on the wire are plain JSON string bodies.
pub proof fn lemma_addr_name_props(a: Address)
    ensures
        json_safe(spec_addr_name(a)),
        spec_addr_name(a).len() >= 1,
{
    match a {
        Address::Native => {
            assert(json_safe(spec_addr_name(a)));
        },
        Address::Background => {
            assert(json_safe(spec_addr_name(a)));
        },
        Address::Popup => {
            assert(json_safe(spec_addr_name(a)));
        },
        Address::Content => {
            assert(json_safe(spec_addr_name(a)));
        },
        Address::Injected => {
            assert(json_safe(spec_addr_name(a)));
        },
    }
}

/// Each wire name denotes its own address and no other: the five names
/// all have different lengths.
pub proof fn lemma_parse_addr_name(a: Address)
    ensures
        spec_parse_addr(spec_addr_name(a)) == Some(a),
{
    assert(spec_addr_name(Address::Native).len() == 6);
    assert(spec_addr_name(Address::Background).len() == 10);
    assert(spec_addr_name(Address::Popup).len() == 5);
    assert(spec_addr_name(Address::Content).len() == 7);
    assert(spec_addr_name(Address::Injected).len() == 8);
}

/// Scanning a quote-free region that a quote follows yields the region.
proof fn lemma_scan_region(b: Seq<u8>, p: int, r: Seq<u8>)
    requires
        0 <= p,
        p + r.len() < b.len(),
        json_safe(r),
        b.subrange(p, p + r.len()) == r,
        b[p + r.len()] == 34,
    ensures
        spec_scan(b, p) == Some((r, p + r.len())),
{
    assert forall|k: int| p <= k < p + r.len() implies (#[trigger] b[k]) != 34 by {
        assert(b.subrange(p, p + r.len())[k - p] == b[k]);
        assert(r[k - p] != 34);
    }
    lemma_scan_from(b, p, p + r.len());
    assert(b.subrange(p, p + r.len()) + Seq::<u8>::empty() =~= r);
}

proof fn lemma_prefix_subrange(x: Seq<u8>, y: Seq<u8>, i: int, j: int)
    requires
        0 <= i <= j <= x.len(),
    ensures
        (x + y).subrange(i, j) == x.subrange(i, j),
{
    assert((x + y).subrange(i, j) =~= x.subrange(i, j));
}

proof fn lemma_suffix_subrange(x: Seq<u8>, y: Seq<u8>, i: int, j: int)
    requires
        0 <= i <= j <= y.len(),
    ensures
        (x + y).subrange(x.len() + i, x.len() + j) == y.subrange(i, j),
{
    assert((x + y).subrange(x.len() + i, x.len() + j) =~= y.subrange(i, j));
}

proof fn lemma_whole_subrange(x: Seq<u8>)
    ensures
        x.subrange(0, x.len() as int) == x,
{
    assert(x.subrange(0, x.len() as int) =~= x);
}

/// Encoding a request or notification and opaquely decoding the frame
/// returns the sender, receiver, request name and request id exactly.
#[verifier::rlimit(100)]
pub proof fn lemma_roundtrip_request(
    sender: Address,
    receiver: Address,
    rq: Seq<u8>,
    rid: Option<Seq<u8>>,
    payload: Seq<u8>,
)
    requires
        json_safe(rq),
        match rid {
            Some(i) => json_safe(i),
            None => true,
        },
        payload_ok(payload),
    ensures
        spec_decode(encode_request_spec(sender, receiver, rq, rid, payload)) == Some(
            PacketModel::Request { sender, receiver, request: rq, response: rid },
        ),
{
    let b = encode_request_spec(sender, receiver, rq, rid, payload);
    let n1 = spec_addr_name(sender);
    let n2 = spec_addr_name(receiver);
    lemma_addr_name_props(sender);
    lemma_addr_name_props(receiver);
    lemma_parse_addr_name(sender);
    lemma_parse_addr_name(receiver);
    let ridpart: Seq<u8> = match rid {
        None => spec_lit_null(),
        Some(i) => spec_rid_obj_head() + i + seq![34u8, 125u8],
    };
    let s1 = spec_head_request();
    let s2 = s1 + n1;
    let s3 = s2 + spec_mid_receiver();
    let s4 = s3 + n2;
    let s5 = s4 + spec_mid_request();
    let s6 = s5 + rq;
    let s7 = s6 + spec_mid_response();
    let s8 = s7 + ridpart;
    let s9 = s8 + spec_payload_part(payload);
    assert(b == s9 + seq![125u8]);
    let q0 = s1.len() as int;
    let p1 = s2.len() as int;
    let p1b = s3.len() as int;
    let p2 = s4.len() as int;
    let p2b = s5.len() as int;
    let p3 = s6.len() as int;
    let p4 = s7.len() as int;

    // the head
    assert(b.subrange(0, q0) == s1) by {
        lemma_prefix_subrange(s9, seq![125u8], 0, q0);
        lemma_prefix_subrange(s8, spec_payload_part(payload), 0, q0);
        lemma_prefix_subrange(s7, ridpart, 0, q0);
        lemma_prefix_subrange(s6, spec_mid_response(), 0, q0);
        lemma_prefix_subrange(s5, rq, 0, q0);
        lemma_prefix_subrange(s4, spec_mid_request(), 0, q0);
        lemma_prefix_subrange(s3, n2, 0, q0);
        lemma_prefix_subrange(s2, spec_mid_receiver(), 0, q0);
        lemma_prefix_subrange(s1, n1, 0, q0);
        lemma_whole_subrange(s1);
    }
    assert(spec_starts(b, 0, spec_head_request()));
    assert(!spec_starts(b, 0, spec_head_response())) by {
        if spec_starts(b, 0, spec_head_response()) {
            assert(b.subrange(0, 8)[2] == b[2]);
            assert(b.subrange(0, q0)[2] == b[2]);
        }
    }

    // the sender name, closed by the first byte of the receiver field
    assert(b.subrange(q0, p1) == n1) by {
        lemma_prefix_subrange(s9, seq![125u8], q0, p1);
        lemma_prefix_subrange(s8, spec_payload_part(payload), q0, p1);
        lemma_prefix_subrange(s7, ridpart, q0, p1);
        lemma_prefix_subrange(s6, spec_mid_response(), q0, p1);
        lemma_prefix_subrange(s5, rq, q0, p1);
        lemma_prefix_subrange(s4, spec_mid_request(), q0, p1);
        lemma_prefix_subrange(s3, n2, q0, p1);
        lemma_prefix_subrange(s2, spec_mid_receiver(), q0, p1);
        lemma_suffix_subrange(s1, n1, 0, n1.len() as int);
        lemma_whole_subrange(n1);
    }
    assert(b.subrange(p1, p1b) == spec_mid_receiver()) by {
        lemma_prefix_subrange(s9, seq![125u8], p1, p1b);
        lemma_prefix_subrange(s8, spec_payload_part(payload), p1, p1b);
        lemma_prefix_subrange(s7, ridpart, p1, p1b);
        lemma_prefix_subrange(s6, spec_mid_response(), p1, p1b);
        lemma_prefix_subrange(s5, rq, p1, p1b);
        lemma_prefix_subrange(s4, spec_mid_request(), p1, p1b);
        lemma_prefix_subrange(s3, n2, p1, p1b);
        lemma_suffix_subrange(s2, spec_mid_receiver(), 0, spec_mid_receiver().len() as int);
        lemma_whole_subrange(spec_mid_receiver());
    }
    assert(b[p1] == 34) by {
        assert(b.subrange(p1, p1b)[0] == b[p1]);
    }
    lemma_scan_region(b, q0, n1);
    assert(spec_starts(b, p1, spec_mid_receiver()));

    // the receiver name, closed by the first byte of the request field
    assert(b.subrange(p1b, p2) == n2) by {
        lemma_prefix_subrange(s9, seq![125u8], p1b, p2);
        lemma_prefix_subrange(s8, spec_payload_part(payload), p1b, p2);
        lemma_prefix_subrange(s7, ridpart, p1b, p2);
        lemma_prefix_subrange(s6, spec_mid_response(), p1b, p2);
        lemma_prefix_subrange(s5, rq, p1b, p2);
        lemma_prefix_subrange(s4, spec_mid_request(), p1b, p2);
        lemma_suffix_subrange(s3, n2, 0, n2.len() as int);
        lemma_whole_subrange(n2);
    }
    assert(b.subrange(p2, p2b) == spec_mid_request()) by {
        lemma_prefix_subrange(s9, seq![125u8], p2, p2b);
        lemma_prefix_subrange(s8, spec_payload_part(payload), p2, p2b);
        lemma_prefix_subrange(s7, ridpart, p2, p2b);
        lemma_prefix_subrange(s6, spec_mid_response(), p2, p2b);
        lemma_prefix_subrange(s5, rq, p2, p2b);
        lemma_suffix_subrange(s4, spec_mid_request(), 0, spec_mid_request().len() as int);
        lemma_whole_subrange(spec_mid_request());
    }
    assert(b[p2] == 34) by {
        assert(b.subrange(p2, p2b)[0] == b[p2]);
    }
    lemma_scan_region(b, p1b, n2);
    assert(spec_starts(b, p2, spec_mid_request()));

    // the request name, closed by the first byte of the response field
    assert(b.subrange(p2b, p3) == rq) by {
        lemma_prefix_subrange(s9, seq![125u8], p2b, p3);
        lemma_prefix_subrange(s8, spec_payload_part(payload), p2b, p3);
        lemma_prefix_subrange(s7, ridpart, p2b, p3);
        lemma_prefix_subrange(s6, spec_mid_response(), p2b, p3);
        lemma_suffix_subrange(s5, rq, 0, rq.len() as int);
        lemma_whole_subrange(rq);
    }
    assert(b.subrange(p3, p4) == spec_mid_response()) by {
        lemma_prefix_subrange(s9, seq![125u8], p3, p4);
        lemma_prefix_subrange(s8, spec_payload_part(payload), p3, p4);
        lemma_suffix_subrange(s6, spec_mid_response(), 0, spec_mid_response().len() as int);
        lemma_whole_subrange(spec_mid_response());
    }
    assert(b[p3] == 34) by {
        assert(b.subrange(p3, p4)[0] == b[p3]);
    }
    lemma_scan_region(b, p2b, rq);
    assert(spec_starts(b, p3, spec_mid_response()));

    // the response field: null, or an object with the request id
    assert(b.subrange(p4, p4 + ridpart.len()) == ridpart) by {
        lemma_prefix_subrange(s9, seq![125u8], p4, p4 + ridpart.len());
        lemma_prefix_subrange(s8, spec_payload_part(payload), p4, p4 + ridpart.len());
        lemma_suffix_subrange(s7, ridpart, 0, ridpart.len() as int);
        lemma_whole_subrange(ridpart);
    }
    match rid {
        None => {
            assert(spec_starts(b, p4, spec_lit_null()));
        },
        Some(i) => {
            let ro = spec_rid_obj_head();
            let p4b = p4 + ro.len() as int;
            let p5 = p4b + i.len();
            assert(b.subrange(p4, p4b) == ro) by {
                lemma_prefix_subrange(ridpart, Seq::<u8>::empty(), 0, ro.len() as int);
                assert(ridpart + Seq::<u8>::empty() =~= ridpart);
                lemma_prefix_subrange(ro + i, seq![34u8, 125u8], 0, ro.len() as int);
                lemma_prefix_subrange(ro, i, 0, ro.len() as int);
                lemma_whole_subrange(ro);
                lemma_suffix_subrange(s7, ridpart, 0, ro.len() as int);
                lemma_prefix_subrange(s9, seq![125u8], p4, p4b);
                lemma_prefix_subrange(s8, spec_payload_part(payload), p4, p4b);
            }
            assert(!spec_starts(b, p4, spec_lit_null())) by {
                if spec_starts(b, p4, spec_lit_null()) {
                    assert(b.subrange(p4, p4 + 4)[0] == b[p4]);
                    assert(b.subrange(p4, p4b)[0] == b[p4]);
                }
            }
            assert(spec_starts(b, p4, ro));
            assert(b.subrange(p4b, p5) == i) by {
                lemma_suffix_subrange(s7, ridpart, ro.len() as int, (ro.len() + i.len()) as int);
                lemma_prefix_subrange(ro + i, seq![34u8, 125u8], ro.len() as int, (ro.len() + i.len()) as int);
                lemma_suffix_subrange(ro, i, 0, i.len() as int);
                lemma_whole_subrange(i);
                lemma_prefix_subrange(s9, seq![125u8], p4b, p5);
                lemma_prefix_subrange(s8, spec_payload_part(payload), p4b, p5);
            }
            assert(b.subrange(p5, p5 + 2) == seq![34u8, 125u8]) by {
                lemma_suffix_subrange(s7, ridpart, (ro.len() + i.len()) as int, ridpart.len() as int);
                lemma_suffix_subrange(ro + i, seq![34u8, 125u8], 0, 2);
                lemma_whole_subrange(seq![34u8, 125u8]);
                lemma_prefix_subrange(s9, seq![125u8], p5, p5 + 2);
                lemma_prefix_subrange(s8, spec_payload_part(payload), p5, p5 + 2);
            }
            assert(b[p5] == 34) by {
                assert(b.subrange(p5, p5 + 2)[0] == b[p5]);
            }
            lemma_scan_region(b, p4b, i);
            assert(spec_starts(b, p5, seq![34u8, 125u8]));
        },
    }
}

/// Encoding a response and opaquely decoding the frame returns the
/// request id, origin and error exactly.
#[verifier::rlimit(100)]
pub proof fn lemma_roundtrip_response(
    rid: Seq<u8>,
    request_origin: Address,
    error: Option<Seq<u8>>,
    payload: Seq<u8>,
)
    requires
        json_safe(rid),
        match error {
            Some(e) => json_safe(e),
            None => true,
        },
        payload_ok(payload),
    ensures
        spec_decode(encode_response_spec(rid, request_origin, error, payload)) == Some(
            PacketModel::Response { rid, request_origin, error },
        ),
{
    let b = encode_response_spec(rid, request_origin, error, payload);
    let nm = spec_addr_name(request_origin);
    lemma_addr_name_props(request_origin);
    lemma_parse_addr_name(request_origin);
    let errpart: Seq<u8> = match error {
        None => spec_lit_null(),
        Some(e) => seq![34u8] + e + seq![34u8],
    };
    let s1 = spec_head_response();
    let s2 = s1 + rid;
    let s3 = s2 + spec_mid_origin();
    let s4 = s3 + nm;
    let s5 = s4 + spec_mid_error();
    let s6 = s5 + errpart;
    let s7 = s6 + spec_payload_part(payload);
    assert(b == s7 + seq![125u8]);
    let q0 = s1.len() as int;
    let p1 = s2.len() as int;
    let p1b = s3.len() as int;
    let p2 = s4.len() as int;
    let p3 = s5.len() as int;

    assert(b.subrange(0, q0) == s1) by {
        lemma_prefix_subrange(s7, seq![125u8], 0, q0);
        lemma_prefix_subrange(s6, spec_payload_part(payload), 0, q0);
        lemma_prefix_subrange(s5, errpart, 0, q0);
        lemma_prefix_subrange(s4, spec_mid_error(), 0, q0);
        lemma_prefix_subrange(s3, nm, 0, q0);
        lemma_prefix_subrange(s2, spec_mid_origin(), 0, q0);
        lemma_prefix_subrange(s1, rid, 0, q0);
        lemma_whole_subrange(s1);
    }
    assert(spec_starts(b, 0, spec_head_response()));

    assert(b.subrange(q0, p1) == rid) by {
        lemma_prefix_subrange(s7, seq![125u8], q0, p1);
        lemma_prefix_subrange(s6, spec_payload_part(payload), q0, p1);
        lemma_prefix_subrange(s5, errpart, q0, p1);
        lemma_prefix_subrange(s4, spec_mid_error(), q0, p1);
        lemma_prefix_subrange(s3, nm, q0, p1);
        lemma_prefix_subrange(s2, spec_mid_origin(), q0, p1);
        lemma_suffix_subrange(s1, rid, 0, rid.len() as int);
        lemma_whole_subrange(rid);
    }
    assert(b.subrange(p1, p1b) == spec_mid_origin()) by {
        lemma_prefix_subrange(s7, seq![125u8], p1, p1b);
        lemma_prefix_subrange(s6, spec_payload_part(payload), p1, p1b);
        lemma_prefix_subrange(s5, errpart, p1, p1b);
        lemma_prefix_subrange(s4, spec_mid_error(), p1, p1b);
        lemma_prefix_subrange(s3, nm, p1, p1b);
        lemma_suffix_subrange(s2, spec_mid_origin(), 0, spec_mid_origin().len() as int);
        lemma_whole_subrange(spec_mid_origin());
    }
    assert(b[p1] == 34) by {
        assert(b.subrange(p1, p1b)[0] == b[p1]);
    }
    lemma_scan_region(b, q0, rid);
    assert(spec_starts(b, p1, spec_mid_origin()));

    assert(b.subrange(p1b, p2) == nm) by {
        lemma_prefix_subrange(s7, seq![125u8], p1b, p2);
        lemma_prefix_subrange(s6, spec_payload_part(payload), p1b, p2);
        lemma_prefix_subrange(s5, errpart, p1b, p2);
        lemma_prefix_subrange(s4, spec_mid_error(), p1b, p2);
        lemma_suffix_subrange(s3, nm, 0, nm.len() as int);
        lemma_whole_subrange(nm);
    }
    assert(b.subrange(p2, p3) == spec_mid_error()) by {
        lemma_prefix_subrange(s7, seq![125u8], p2, p3);
        lemma_prefix_subrange(s6, spec_payload_part(payload), p2, p3);
        lemma_suffix_subrange(s4, spec_mid_error(), 0, spec_mid_error().len() as int);
        lemma_whole_subrange(spec_mid_error());
    }
    assert(b[p2] == 34) by {
        assert(b.subrange(p2, p3)[0] == b[p2]);
    }
    lemma_scan_region(b, p1b, nm);
    assert(spec_starts(b, p2, spec_mid_error()));

    assert(b.subrange(p3, p3 + errpart.len()) == errpart) by {
        lemma_prefix_subrange(s7, seq![125u8], p3, p3 + errpart.len());
        lemma_prefix_subrange(s6, spec_payload_part(payload), p3, p3 + errpart.len());
        lemma_suffix_subrange(s5, errpart, 0, errpart.len() as int);
        lemma_whole_subrange(errpart);
    }
    match error {
        None => {
            assert(spec_starts(b, p3, spec_lit_null()));
        },
        Some(e) => {
            assert(b[p3] == 34) by {
                assert(b.subrange(p3, p3 + errpart.len())[0] == b[p3]);
            }
            assert(!spec_starts(b, p3, spec_lit_null())) by {
                if spec_starts(b, p3, spec_lit_null()) {
                    assert(b.subrange(p3, p3 + 4)[0] == b[p3]);
                }
            }
            let p4 = p3 + 1 + e.len();
            assert(b.subrange(p3 + 1, p4) == e) by {
                lemma_prefix_subrange(s7, seq![125u8], p3 + 1, p4);
                lemma_prefix_subrange(s6, spec_payload_part(payload), p3 + 1, p4);
                lemma_suffix_subrange(s5, errpart, 1, (1 + e.len()) as int);
                lemma_prefix_subrange(seq![34u8] + e, seq![34u8], 1, (1 + e.len()) as int);
                lemma_suffix_subrange(seq![34u8], e, 0, e.len() as int);
                lemma_whole_subrange(e);
            }
            assert(b[p4] == 34) by {
                lemma_prefix_subrange(s7, seq![125u8], p4, p4 + 1);
                lemma_prefix_subrange(s6, spec_payload_part(payload), p4, p4 + 1);
                lemma_suffix_subrange(s5, errpart, (1 + e.len()) as int, errpart.len() as int);
                lemma_suffix_subrange(seq![34u8] + e, seq![34u8], 0, 1);
                assert(b.subrange(p4, p4 + 1)[0] == b[p4]);
                assert(errpart.subrange((1 + e.len()) as int, errpart.len() as int)[0]
                    == errpart[(1 + e.len()) as int]);
                assert(seq![34u8].subrange(0, 1)[0] == 34);
            }
            lemma_scan_region(b, p3 + 1, e);
        },
    }
}

} // verus!
