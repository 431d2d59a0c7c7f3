use find9::database::{Database, SQLITE_OPEN_CREATE, SQLITE_OPEN_READWRITE};
use find9::dispatch::{frame_tcp, handle_request, tcp_length, udp_size_limit, Action, Header, Policy, Request};
use find9::event::Query;
use find9::record::{RData, Record, RecordType, ResponseCode, CLASS_IN};
use find9::tracker::{Call, Endpoint, ResponseTracker};
use find9::zone::{ZoneKind, ZoneTree};

fn header(id: u16, qr: bool) -> Header {
    Header {
        id,
        qr,
        op_code: 0,
        authoritative: false,
        truncated: false,
        recursion_desired: true,
        recursion_available: false,
        rcode: ResponseCode::NoError,
    }
}

fn tree() -> ZoneTree {
    let mut tree = ZoneTree::new(ZoneKind::Hint);
    tree.register_zone(
        "example",
        ZoneKind::Master,
        ZoneKind::Hint,
        vec![("www.example".to_string(), Record { class: CLASS_IN, ttl: 5, data: RData::A { address: 1 } })],
    );
    tree
}

fn question(name: &str, t: RecordType) -> Query {
    Query { name: name.to_string(), class: CLASS_IN, rtype: t }
}

fn policy(forward: bool) -> Policy {
    Policy { any_allowed: false, forward_on_failure: forward, transfer_sources: vec![7] }
}

const CLIENT: Endpoint = Endpoint { ip: 5, port: 4000 };

#[test]
fn no_question_is_formerr() {
    let mut tracker = ResponseTracker::new();
    let req = Request { header: header(1, false), questions: Vec::new(), authority: Vec::new() };
    match handle_request(&tree(), &mut tracker, req, CLIENT, 0, &policy(false)) {
        Action::Respond(reply) => {
            assert_eq!(reply.header.rcode, ResponseCode::FormErr);
            assert!(reply.header.qr);
            assert_eq!(reply.header.id, 1);
            assert!(reply.questions.is_empty() && reply.answers.is_empty());
        },
        other => panic!("unexpected {:?}", other),
    }
}

#[test]
fn answers_first_question_only() {
    let mut tracker = ResponseTracker::new();
    let req = Request {
        header: header(2, false),
        questions: vec![question("www.example", RecordType::A), question("nope", RecordType::A)],
        authority: Vec::new(),
    };
    match handle_request(&tree(), &mut tracker, req, CLIENT, 0, &policy(false)) {
        Action::Respond(reply) => {
            assert_eq!(reply.header.rcode, ResponseCode::NoError);
            assert!(reply.header.authoritative);
            assert!(reply.header.recursion_desired);
            assert_eq!(reply.questions.len(), 1);
            assert_eq!(reply.answers.len(), 1);
            assert_eq!(reply.answers[0].0, "www.example");
        },
        other => panic!("unexpected {:?}", other),
    }
}

#[test]
fn failure_is_answered_or_forwarded() {
    let mut tracker = ResponseTracker::new();
    let req = Request { header: header(3, false), questions: vec![question("other", RecordType::A)], authority: Vec::new() };
    match handle_request(&tree(), &mut tracker, req, CLIENT, 0, &policy(false)) {
        Action::Respond(reply) => assert_eq!(reply.header.rcode, ResponseCode::Refused),
        other => panic!("unexpected {:?}", other),
    }
    let req = Request { header: header(4, false), questions: vec![question("other", RecordType::A)], authority: Vec::new() };
    match handle_request(&tree(), &mut tracker, req, CLIENT, 77, &policy(true)) {
        Action::Forward => {},
        other => panic!("unexpected {:?}", other),
    }
    assert_eq!(tracker.get(4), Some(Call::new(CLIENT, 77)));
    let reply = Request { header: header(4, true), questions: Vec::new(), authority: Vec::new() };
    match handle_request(&tree(), &mut tracker, reply, Endpoint { ip: 1, port: 53 }, 80, &policy(true)) {
        Action::Relay(to) => assert_eq!(to, CLIENT),
        other => panic!("unexpected {:?}", other),
    }
    assert!(!tracker.contains(4));
    let stray = Request { header: header(4, true), questions: Vec::new(), authority: Vec::new() };
    assert!(matches!(handle_request(&tree(), &mut tracker, stray, CLIENT, 81, &policy(true)), Action::Drop));
}

#[test]
fn transfers_need_an_allowed_source() {
    let mut tracker = ResponseTracker::new();
    let req = Request { header: header(5, false), questions: vec![question("example", RecordType::Axfr)], authority: Vec::new() };
    match handle_request(&tree(), &mut tracker, req, CLIENT, 0, &policy(false)) {
        Action::Respond(reply) => assert_eq!(reply.header.rcode, ResponseCode::Refused),
        other => panic!("unexpected {:?}", other),
    }
    let req = Request { header: header(6, false), questions: vec![question("example", RecordType::Axfr)], authority: Vec::new() };
    match handle_request(&tree(), &mut tracker, req, Endpoint { ip: 7, port: 1 }, 0, &policy(false)) {
        Action::Respond(reply) => assert_eq!(reply.header.rcode, ResponseCode::ServFail),
        other => panic!("unexpected {:?}", other),
    }
}

#[test]
fn unsupported_type_is_notimp() {
    let mut tracker = ResponseTracker::new();
    let req = Request { header: header(8, false), questions: vec![question("www.example", RecordType::Ptr)], authority: Vec::new() };
    match handle_request(&tree(), &mut tracker, req, CLIENT, 0, &policy(false)) {
        Action::Respond(reply) => assert_eq!(reply.header.rcode, ResponseCode::NotImp),
        other => panic!("unexpected {:?}", other),
    }
}

#[test]
fn unknown_wire_type_is_notimp() {
    let mut tracker = ResponseTracker::new();
    let req = Request {
        header: header(9, false),
        questions: vec![question("www.example", RecordType::from_code(99))],
        authority: Vec::new(),
    };
    match handle_request(&tree(), &mut tracker, req, CLIENT, 0, &policy(false)) {
        Action::Respond(reply) => assert_eq!(reply.header.rcode, ResponseCode::NotImp),
        other => panic!("unexpected {:?}", other),
    }
}

#[test]
fn tcp_framing() {
    assert_eq!(frame_tcp(&vec![0xaa, 0xbb, 0xcc]), vec![0x00, 0x03, 0xaa, 0xbb, 0xcc]);
    let big = vec![0u8; 0x1234];
    let framed = frame_tcp(&big);
    assert_eq!(&framed[..2], &[0x12, 0x34]);
    assert_eq!(framed.len(), 0x1236);
    assert_eq!(tcp_length(&[0x01, 0x02]), Some(0x0102));
    assert_eq!(tcp_length(&[0x01]), None);
}

#[test]
fn udp_limits() {
    assert_eq!(udp_size_limit(None), 512);
    assert_eq!(udp_size_limit(Some(4096)), 4096);
    assert_eq!(udp_size_limit(Some(100)), 512);
}

#[test]
fn record_and_response_codes() {
    assert_eq!(RecordType::Aaaa.code(), 28);
    assert_eq!(RecordType::from_code(252), RecordType::Axfr);
    assert_eq!(RecordType::from_code(999), RecordType::Other(999));
    assert_eq!(RecordType::Other(999).code(), 999);
    assert_eq!(ResponseCode::NxDomain.code(), 3);
    let soa = Record {
        class: CLASS_IN,
        ttl: 1,
        data: RData::Soa {
            mname: "m".to_string(),
            rname: "r".to_string(),
            serial: 4,
            refresh: 1,
            retry: 1,
            expire: 1,
            minimum: 1,
        },
    };
    assert_eq!(soa.get_serial(), Some(4));
    assert_eq!(soa.with_serial(9).get_serial(), Some(9));
    assert_eq!(soa.duplicate(), soa);
}

#[test]
fn database_open_modes() {
    let d = Database::open_existing("records.db");
    assert_eq!(d.name, "records.db");
    assert_eq!(d.flags, SQLITE_OPEN_READWRITE);
    let d = Database::open_or_create("records.db");
    assert_eq!(d.flags, SQLITE_OPEN_READWRITE | SQLITE_OPEN_CREATE);
    assert_eq!(d.flags, 6);
}
