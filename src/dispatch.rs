//! Transport dispatch: what to do with one decoded message, the choice of
//! strategy for each question type, and the framing of TCP messages.
use vstd::prelude::*;
use crate::record::{RecordType, ResponseCode};
use crate::zone::ZoneTree;
use crate::event::{Entry, Query, RequestEvent, entries};
use crate::resolve::{applied, negative, on_any_query, resolve, resolve_spec, ResponseResult, all_sets, is_rfc8482_hinfo, Outcome};
use crate::transfer::{axfr_spec, client_serial, ixfr_spec, on_axfr_query, on_ixfr_query};
use crate::tracker::{Call, Endpoint, ResponseTracker, MAX_ACTIVE_CALLS};

verus! {

/// The header fields of a DNS message that dispatch reads or sets.
#[derive(PartialEq, Eq, Structural, Clone, Copy, Debug)]
pub struct Header {
    pub id: u16,
    pub qr: bool,
    pub op_code: u8,
    pub authoritative: bool,
    pub truncated: bool,
    pub recursion_desired: bool,
    pub recursion_available: bool,
    pub rcode: ResponseCode,
}

/// A decoded incoming message.
#[derive(Debug)]
pub struct Request {
    pub header: Header,
    pub questions: Vec<Query>,
    pub authority: Vec<Entry>,
}

/// A response to send.
#[derive(Debug)]
pub struct Reply {
    pub header: Header,
    pub questions: Vec<Query>,
    pub answers: Vec<Entry>,
    pub authority: Vec<Entry>,
    pub additional: Vec<Entry>,
}

/// The server's policy switches.
#[derive(Debug)]
pub struct Policy {
    /// ANY questions are answered with every record type rather than with
    /// the RFC 8482 HINFO record.
    pub any_allowed: bool,
    /// Failed questions are forwarded to the fallback resolver.
    pub forward_on_failure: bool,
    /// The addresses allowed to transfer zones.
    pub transfer_sources: Vec<u128>,
}

/// What the transport does with a message.
#[derive(Debug)]
pub enum Action {
    /// Nothing is sent.
    Drop,
    /// The reply is sent to the message's origin.
    Respond(Reply),
    /// The message goes to the fallback resolver; a call was recorded.
    Forward,
    /// A fallback reply goes on to the client that asked.
    Relay(Endpoint),
}

pub open spec fn is_resolved_type(t: RecordType) -> bool {
    t == RecordType::A || t == RecordType::Aaaa || t == RecordType::Ns || t == RecordType::Mx || t
        == RecordType::Txt || t == RecordType::Soa || t == RecordType::Https || t == RecordType::Svcb
}

/// `a` is allowed among `sources`.
pub open spec fn transfer_allowed(sources: Seq<u128>, a: u128) -> bool {
    sources.contains(a)
}

/// What answering the question of `a` leaves in `b` and returns as `r`,
/// by question type.
pub open spec fn answered(tree: ZoneTree, a: RequestEvent, b: RequestEvent, r: ResponseResult, any_allowed: bool, may_transfer: bool) -> bool {
    let name = a.query.name@;
    let t = a.query.rtype;
    if is_resolved_type(t) {
        applied(a, b, resolve_spec(tree, name, t, 0)) && r == resolve_spec(tree, name, t, 0).result
    } else if t == RecordType::Axfr && may_transfer {
        applied(a, b, axfr_spec(tree, name)) && r == axfr_spec(tree, name).result
    } else if t == RecordType::Ixfr && may_transfer {
        let c = client_serial(entries(a.request_authority@), name);
        applied(a, b, ixfr_spec(tree, name, c)) && r == ixfr_spec(tree, name, c).result
    } else if t == RecordType::Axfr || t == RecordType::Ixfr {
        b == a && r == Err::<(), ResponseCode>(ResponseCode::Refused)
    } else if t == RecordType::Any {
        match tree.exact(name) {
            None => applied(a, b, negative(tree, name)) && r == negative(tree, name).result,
            Some(n) => r is Ok && b.authoritative == tree.nodes@[n].kind.spec_is_authoritative() && if any_allowed {
                applied(
                    a,
                    b,
                    Outcome {
                        answers: all_sets(tree.nodes@[n].sets@, name),
                        authority: Seq::empty(),
                        additional: Seq::empty(),
                        auth: Some(tree.nodes@[n].kind.spec_is_authoritative()),
                        result: Ok(()),
                    },
                )
            } else {
                &&& b.answers@.len() == a.answers@.len() + 1
                &&& entries(b.answers@).drop_last() == entries(a.answers@)
                &&& b.answers@.last().0@ == name
                &&& is_rfc8482_hinfo(b.answers@.last().1)
                &&& b.authority == a.authority
                &&& b.additional == a.additional
                &&& b.query == a.query
            },
        }
    } else {
        b == a && r == Err::<(), ResponseCode>(ResponseCode::NotImp)
    }
}

fn contains_source(sources: &Vec<u128>, a: u128) -> (r: bool)
    ensures
        r == transfer_allowed(sources@, a),
{
    let mut i: usize = 0;
    while i < sources.len()
        invariant
            i <= sources@.len(),
            forall|j: int| 0 <= j < i ==> sources@[j] != a,
        decreases sources@.len() - i,
    {
        if sources[i] == a {
            return true;
        }
        i = i + 1;
    }
    false
}

/// Runs the strategy for the event's question type. Zone transfers are
/// refused unless `may_transfer`; types without a strategy get NOTIMP.
pub fn answer_question(
    zones: &ZoneTree,
    event: &mut RequestEvent,
    any_allowed: bool,
    may_transfer: bool,
) -> (r: ResponseResult)
    requires
        zones.wf(),
    ensures
        answered(*zones, *old(event), *final(event), r, any_allowed, may_transfer),
{
    let t = event.query.rtype;
    match t {
        RecordType::A | RecordType::Aaaa | RecordType::Ns | RecordType::Mx | RecordType::Txt
        | RecordType::Soa | RecordType::Https | RecordType::Svcb => resolve(zones, event, t),
        RecordType::Axfr => {
            if may_transfer {
                on_axfr_query(zones, event)
            } else {
                Err(ResponseCode::Refused)
            }
        },
        RecordType::Ixfr => {
            if may_transfer {
                on_ixfr_query(zones, event)
            } else {
                Err(ResponseCode::Refused)
            }
        },
        RecordType::Any => on_any_query(zones, event, any_allowed),
        _ => Err(ResponseCode::NotImp),
    }
}

/// A new accumulator for question `q` of a request whose authority section
/// is `auth`.
pub open spec fn fresh_event(a: RequestEvent, q: Query, auth: Vec<Entry>) -> bool {
    &&& a.query == q
    &&& !a.authoritative
    &&& !a.prevent_default
    &&& a.request_authority == auth
    &&& a.answers@.len() == 0
    &&& a.authority@.len() == 0
    &&& a.additional@.len() == 0
}

/// The header of the response to a request with header `h`.
pub open spec fn reply_header(h: Header, authoritative: bool, rcode: ResponseCode) -> Header {
    Header {
        id: h.id,
        qr: true,
        op_code: h.op_code,
        authoritative,
        truncated: false,
        recursion_desired: h.recursion_desired,
        recursion_available: false,
        rcode,
    }
}

/// `reply` carries the answer that `event` and `r` hold for question `q`:
/// every section on success; on failure, the response code with the
/// authority and additional sections.
pub open spec fn reply_of(reply: Reply, h: Header, q: Query, event: RequestEvent, r: ResponseResult) -> bool {
    &&& reply.questions@ == seq![q]
    &&& reply.authority == event.authority
    &&& reply.additional == event.additional
    &&& match r {
        Ok(()) => reply.header == reply_header(h, event.authoritative, ResponseCode::NoError)
            && reply.answers == event.answers,
        Err(code) => reply.header == reply_header(h, event.authoritative, code) && reply.answers@.len()
            == 0,
    }
}

fn reply_for(h: Header, q: Query, event: RequestEvent, r: ResponseResult) -> (reply: Reply)
    ensures
        reply_of(reply, h, q, event, r),
{
    let mut questions: Vec<Query> = Vec::new();
    questions.push(q);
    proof {
        assert(questions@ =~= seq![q]);
    }
    let RequestEvent { authoritative, answers, authority, additional, .. } = event;
    match r {
        Ok(()) => Reply {
            header: Header {
                id: h.id,
                qr: true,
                op_code: h.op_code,
                authoritative,
                truncated: false,
                recursion_desired: h.recursion_desired,
                recursion_available: false,
                rcode: ResponseCode::NoError,
            },
            questions,
            answers,
            authority,
            additional,
        },
        Err(code) => Reply {
            header: Header {
                id: h.id,
                qr: true,
                op_code: h.op_code,
                authoritative,
                truncated: false,
                recursion_desired: h.recursion_desired,
                recursion_available: false,
                rcode: code,
            },
            questions,
            answers: Vec::new(),
            authority,
            additional,
        },
    }
}

/// Decides what to do with one decoded message from `source` at time `now`.
/// A reply from the fallback resolver goes on to the client whose call it
/// answers. A message without questions gets FORMERR. Otherwise the first
/// question is answered; a strategy that asked for no reply gets none; a
/// failure is forwarded to the fallback resolver
/// instead when the policy asks for it and the call budget allows.
pub fn handle_request(
    zones: &ZoneTree,
    tracker: &mut ResponseTracker,
    request: Request,
    source: Endpoint,
    now: u128,
    policy: &Policy,
) -> (action: Action)
    requires
        zones.wf(),
        old(tracker).wf(),
    ensures
        final(tracker).wf(),
        request.header.qr ==> {
            &&& final(tracker)@ == old(tracker)@.remove(request.header.id)
            &&& action == if old(tracker)@.contains_key(request.header.id) {
                Action::Relay(old(tracker)@[request.header.id].address)
            } else {
                Action::Drop
            }
        },
        !request.header.qr && request.questions@.len() == 0 ==> {
            &&& final(tracker)@ == old(tracker)@
            &&& action matches Action::Respond(reply) && reply.header == reply_header(
                request.header,
                false,
                ResponseCode::FormErr,
            ) && reply.questions@.len() == 0 && reply.answers@.len() == 0 && reply.authority@.len() == 0
                && reply.additional@.len() == 0
        },
        !request.header.qr && request.questions@.len() > 0 ==> exists|a: RequestEvent, b: RequestEvent, r: ResponseResult|
            {
                &&& fresh_event(a, request.questions@[0], request.authority)
                &&& #[trigger] answered(
                    *zones,
                    a,
                    b,
                    r,
                    policy.any_allowed,
                    transfer_allowed(policy.transfer_sources@, source.ip),
                )
                &&& if b.prevent_default {
                    &&& action == Action::Drop
                    &&& final(tracker)@ == old(tracker)@
                } else if r is Err && policy.forward_on_failure && old(tracker)@.len() < MAX_ACTIVE_CALLS {
                    &&& action == Action::Forward
                    &&& final(tracker)@ == old(tracker)@.insert(
                        request.header.id,
                        Call { address: source, sent_time: now },
                    )
                } else {
                    &&& final(tracker)@ == old(tracker)@
                    &&& action matches Action::Respond(reply) && reply_of(
                        reply,
                        request.header,
                        request.questions@[0],
                        b,
                        r,
                    )
                }
            },
{
    let Request { header, mut questions, authority } = request;
    if header.qr {
        return match tracker.poll(header.id) {
            Some(call) => Action::Relay(call.address),
            None => Action::Drop,
        };
    }
    if questions.len() == 0 {
        return Action::Respond(
            Reply {
                header: Header {
                    id: header.id,
                    qr: true,
                    op_code: header.op_code,
                    authoritative: false,
                    truncated: false,
                    recursion_desired: header.recursion_desired,
                    recursion_available: false,
                    rcode: ResponseCode::FormErr,
                },
                questions: Vec::new(),
                answers: Vec::new(),
                authority: Vec::new(),
                additional: Vec::new(),
            },
        );
    }
    let q = questions.remove(0);
    let may_transfer = contains_source(&policy.transfer_sources, source.ip);
    let mut event = RequestEvent::new(q, authority);
    let ghost e0 = event;
    let r = answer_question(zones, &mut event, policy.any_allowed, may_transfer);
    let ghost e1 = event;
    if event.prevent_default {
        assert(fresh_event(e0, request.questions@[0], request.authority));
        return Action::Drop;
    }
    if r.is_err() && policy.forward_on_failure && tracker.has_capacity() {
        tracker.add(header.id, Call::new(source, now));
        assert(fresh_event(e0, request.questions@[0], request.authority));
        return Action::Forward;
    }
    let q2 = Query { name: event.query.name.clone(), class: event.query.class, rtype: event.query.rtype };
    let reply = reply_for(header, q2, event, r);
    assert(fresh_event(e0, request.questions@[0], request.authority));
    assert(answered(*zones, e0, e1, r, policy.any_allowed, transfer_allowed(policy.transfer_sources@, source.ip)));
    Action::Respond(reply)
}

/// Largest UDP payload without an EDNS extension.
pub const MAX_UDP_MESSAGE_SIZE: usize = 512;

/// Largest TCP message.
pub const MAX_TCP_MESSAGE_SIZE: usize = 65535;

/// The size bound of a UDP response: 512 bytes, or the payload size that
/// the request's EDNS record advertises when that is larger.
pub fn udp_size_limit(edns_payload: Option<u16>) -> (r: usize)
    ensures
        r == match edns_payload {
            Some(p) => if p as usize > MAX_UDP_MESSAGE_SIZE { p as usize } else { MAX_UDP_MESSAGE_SIZE },
            None => MAX_UDP_MESSAGE_SIZE,
        },
{
    match edns_payload {
        Some(p) => if p as usize > MAX_UDP_MESSAGE_SIZE { p as usize } else { MAX_UDP_MESSAGE_SIZE },
        None => MAX_UDP_MESSAGE_SIZE,
    }
}

/// A message framed for TCP: its length as two big-endian bytes, then the
/// message.
pub fn frame_tcp(message: &Vec<u8>) -> (r: Vec<u8>)
    requires
        message@.len() <= MAX_TCP_MESSAGE_SIZE,
    ensures
        r@ == seq![(message@.len() / 256) as u8, (message@.len() % 256) as u8] + message@,
{
    let n = message.len();
    let mut r: Vec<u8> = Vec::new();
    r.push((n / 256) as u8);
    r.push((n % 256) as u8);
    let mut i: usize = 0;
    while i < n
        invariant
            n == message@.len(),
            i <= n,
            r@ == seq![(n / 256) as u8, (n % 256) as u8] + message@.take(i as int),
        decreases n - i,
    {
        r.push(message[i]);
        assert(message@.take(i + 1) =~= message@.take(i as int).push(message@[i as int]));
        i = i + 1;
    }
    assert(message@.take(n as int) =~= message@);
    r
}

/// The message length that a TCP length prefix states.
pub fn tcp_length(prefix: &[u8]) -> (r: Option<usize>)
    ensures
        match r {
            Some(n) => prefix@.len() >= 2 && n == prefix@[0] as int * 256 + prefix@[1] as int,
            None => prefix@.len() < 2,
        },
{
    if prefix.len() >= 2 {
        Some((prefix[0] as usize) * 256 + prefix[1] as usize)
    } else {
        None
    }
}

} // verus!
