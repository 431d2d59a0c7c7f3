use find9::event::{Query, RequestEvent};
use find9::record::{RData, Record, RecordType, ResponseCode, CLASS_IN};
use find9::resolve::{on_a_query, on_any_query, on_mx_query, on_ns_query, resolve};
use find9::zone::{ZoneKind, ZoneTree};

fn a(addr: u32) -> Record {
    Record { class: CLASS_IN, ttl: 300, data: RData::A { address: addr } }
}

fn aaaa(addr: u128) -> Record {
    Record { class: CLASS_IN, ttl: 300, data: RData::Aaaa { address: addr } }
}

fn cname(target: &str) -> Record {
    Record { class: CLASS_IN, ttl: 300, data: RData::CName { target: target.to_string() } }
}

fn ns(server: &str) -> Record {
    Record { class: CLASS_IN, ttl: 300, data: RData::Ns { server: server.to_string() } }
}

fn mx(priority: u16, server: &str) -> Record {
    Record { class: CLASS_IN, ttl: 300, data: RData::Mx { priority, server: server.to_string() } }
}

fn soa(serial: u32) -> Record {
    Record {
        class: CLASS_IN,
        ttl: 3600,
        data: RData::Soa {
            mname: "ns1.example".to_string(),
            rname: "admin.example".to_string(),
            serial,
            refresh: 7200,
            retry: 3600,
            expire: 1209600,
            minimum: 300,
        },
    }
}

fn event(name: &str, t: RecordType) -> RequestEvent {
    RequestEvent::new(Query { name: name.to_string(), class: CLASS_IN, rtype: t }, Vec::new())
}

fn names(v: &Vec<(String, Record)>) -> Vec<String> {
    v.iter().map(|e| e.0.clone()).collect()
}

#[test]
fn cname_then_address() {
    let mut tree = ZoneTree::new(ZoneKind::Hint);
    tree.register_zone(
        "example.",
        ZoneKind::Master,
        ZoneKind::Hint,
        vec![("example.".to_string(), a(0x0a000001)), ("www.example.".to_string(), cname("example."))],
    );
    let mut ev = event("www.example.", RecordType::A);
    let r = on_a_query(&tree, &mut ev);
    assert_eq!(r, Ok(()));
    assert_eq!(
        ev.answers,
        vec![("www.example.".to_string(), cname("example.")), ("example.".to_string(), a(0x0a000001))]
    );
    assert!(ev.authority.is_empty());
    assert!(ev.is_authoritative());
}

#[test]
fn direct_answers_in_order_capped() {
    let mut tree = ZoneTree::new(ZoneKind::Hint);
    tree.register_zone(
        "example",
        ZoneKind::Master,
        ZoneKind::Hint,
        vec![
            ("host.example".to_string(), a(1)),
            ("host.example".to_string(), a(2)),
            ("host.example".to_string(), a(3)),
            ("host.example".to_string(), a(4)),
        ],
    );
    let mut ev = event("host.example", RecordType::A);
    assert_eq!(on_a_query(&tree, &mut ev), Ok(()));
    let got: Vec<Record> = ev.answers.iter().map(|e| e.1.clone()).collect();
    assert_eq!(got, vec![a(1), a(2), a(3)]);
    assert_eq!(names(&ev.answers), vec!["host.example"; 3]);
}

#[test]
fn slave_zone_is_authoritative_stub_is_not() {
    let mut tree = ZoneTree::new(ZoneKind::Hint);
    tree.register_zone("one", ZoneKind::Slave, ZoneKind::Hint, vec![("one".to_string(), a(1))]);
    tree.register_zone("two", ZoneKind::Stub, ZoneKind::Hint, vec![("two".to_string(), a(2))]);
    let mut ev = event("one", RecordType::A);
    assert_eq!(on_a_query(&tree, &mut ev), Ok(()));
    assert!(ev.authoritative);
    let mut ev = event("two", RecordType::A);
    assert_eq!(on_a_query(&tree, &mut ev), Ok(()));
    assert!(!ev.authoritative);
}

fn chain_tree(hops: usize) -> ZoneTree {
    let mut recs = Vec::new();
    for i in 0..hops {
        recs.push((format!("c{}.chain", i), cname(&format!("c{}.chain", i + 1))));
    }
    recs.push((format!("c{}.chain", hops), a(7)));
    let mut tree = ZoneTree::new(ZoneKind::Hint);
    tree.register_zone("chain", ZoneKind::Master, ZoneKind::Hint, recs);
    tree
}

#[test]
fn chain_of_ten_resolves() {
    let tree = chain_tree(10);
    let mut ev = event("c0.chain", RecordType::A);
    assert_eq!(on_a_query(&tree, &mut ev), Ok(()));
    assert_eq!(ev.answers.len(), 11);
    assert_eq!(ev.answers[10], ("c10.chain".to_string(), a(7)));
    for i in 0..10 {
        assert_eq!(ev.answers[i], (format!("c{}.chain", i), cname(&format!("c{}.chain", i + 1))));
    }
}

#[test]
fn chain_of_eleven_fails() {
    let tree = chain_tree(11);
    let mut ev = event("c0.chain", RecordType::A);
    assert_eq!(on_a_query(&tree, &mut ev), Err(ResponseCode::ServFail));
    assert_eq!(ev.answers.len(), 10);
    assert!(ev.answers.iter().all(|e| e.1.get_type() == RecordType::CName));
    assert!(ev.authority.is_empty());
    assert!(ev.additional.is_empty());
}

#[test]
fn cname_loop_fails() {
    let mut tree = ZoneTree::new(ZoneKind::Hint);
    tree.register_zone(
        "loop",
        ZoneKind::Master,
        ZoneKind::Hint,
        vec![("a.loop".to_string(), cname("b.loop")), ("b.loop".to_string(), cname("a.loop"))],
    );
    let mut ev = event("a.loop", RecordType::A);
    assert_eq!(on_a_query(&tree, &mut ev), Err(ResponseCode::ServFail));
    assert_eq!(ev.answers.len(), 10);
}

#[test]
fn unknown_name_is_refused() {
    let mut tree = ZoneTree::new(ZoneKind::Hint);
    tree.register_zone("example", ZoneKind::Master, ZoneKind::Hint, vec![("example".to_string(), soa(1))]);
    let mut ev = event("nowhere.org", RecordType::A);
    assert_eq!(on_a_query(&tree, &mut ev), Err(ResponseCode::Refused));
    assert!(ev.answers.is_empty());
    assert!(ev.authority.is_empty());
}

#[test]
fn absent_name_is_nxdomain_with_zone_soa() {
    let mut tree = ZoneTree::new(ZoneKind::Hint);
    tree.register_zone(
        "example",
        ZoneKind::Master,
        ZoneKind::Hint,
        vec![("example".to_string(), soa(5)), ("www.example".to_string(), a(1))],
    );
    let mut ev = event("missing.www.example", RecordType::A);
    assert_eq!(on_a_query(&tree, &mut ev), Err(ResponseCode::NxDomain));
    assert!(ev.answers.is_empty());
    assert_eq!(ev.authority, vec![("example".to_string(), soa(5))]);
    assert!(ev.authoritative);
}

#[test]
fn existing_name_without_the_type_is_nxdomain() {
    let mut tree = ZoneTree::new(ZoneKind::Hint);
    tree.register_zone(
        "example.",
        ZoneKind::Master,
        ZoneKind::Hint,
        vec![("example.".to_string(), soa(5)), ("www.example.".to_string(), a(1))],
    );
    let mut ev = event("www.example.", RecordType::Aaaa);
    assert_eq!(resolve(&tree, &mut ev, RecordType::Aaaa), Err(ResponseCode::NxDomain));
    assert_eq!(ev.authority, vec![("example.".to_string(), soa(5))]);
}

#[test]
fn nearest_soa_wins() {
    let mut tree = ZoneTree::new(ZoneKind::Hint);
    tree.register_zone("example", ZoneKind::Master, ZoneKind::Hint, vec![("example".to_string(), soa(1))]);
    tree.register_zone("sub.example", ZoneKind::Master, ZoneKind::Hint, vec![("sub.example".to_string(), soa(2))]);
    let mut ev = event("x.sub.example", RecordType::A);
    assert_eq!(on_a_query(&tree, &mut ev), Err(ResponseCode::NxDomain));
    assert_eq!(ev.authority, vec![("sub.example".to_string(), soa(2))]);
}

#[test]
fn delegation_gives_referral_with_glue() {
    let mut tree = ZoneTree::new(ZoneKind::Hint);
    tree.register_zone(
        "example",
        ZoneKind::Master,
        ZoneKind::Hint,
        vec![
            ("example".to_string(), soa(1)),
            ("child.example".to_string(), ns("ns1.child.example")),
            ("ns1.child.example".to_string(), a(9)),
            ("ns1.child.example".to_string(), aaaa(99)),
        ],
    );
    let mut ev = event("host.child.example", RecordType::A);
    assert_eq!(on_a_query(&tree, &mut ev), Ok(()));
    assert!(ev.answers.is_empty());
    assert_eq!(ev.authority, vec![("child.example".to_string(), ns("ns1.child.example"))]);
    assert_eq!(
        ev.additional,
        vec![("ns1.child.example".to_string(), a(9)), ("ns1.child.example".to_string(), aaaa(99))]
    );
}

#[test]
fn ns_query_answers_ns_records() {
    let mut tree = ZoneTree::new(ZoneKind::Hint);
    tree.register_zone(
        "example",
        ZoneKind::Master,
        ZoneKind::Hint,
        vec![("example".to_string(), ns("ns1.example")), ("ns1.example".to_string(), a(3))],
    );
    let mut ev = event("example", RecordType::Ns);
    assert_eq!(on_ns_query(&tree, &mut ev), Ok(()));
    assert_eq!(ev.answers, vec![("example".to_string(), ns("ns1.example"))]);
    assert!(ev.additional.is_empty());
}

#[test]
fn mx_answer_carries_glue() {
    let mut tree = ZoneTree::new(ZoneKind::Hint);
    tree.register_zone(
        "example",
        ZoneKind::Master,
        ZoneKind::Hint,
        vec![("example".to_string(), mx(10, "mail.example")), ("mail.example".to_string(), a(25))],
    );
    let mut ev = event("example", RecordType::Mx);
    assert_eq!(on_mx_query(&tree, &mut ev), Ok(()));
    assert_eq!(ev.answers, vec![("example".to_string(), mx(10, "mail.example"))]);
    assert_eq!(ev.additional, vec![("mail.example".to_string(), a(25))]);
}

#[test]
fn any_query_policy() {
    let mut tree = ZoneTree::new(ZoneKind::Hint);
    tree.register_zone(
        "example",
        ZoneKind::Master,
        ZoneKind::Hint,
        vec![
            ("example".to_string(), a(1)),
            ("example".to_string(), mx(5, "mx.example")),
            ("example".to_string(), a(2)),
        ],
    );
    let mut ev = event("example", RecordType::Any);
    assert_eq!(on_any_query(&tree, &mut ev, true), Ok(()));
    let got: Vec<Record> = ev.answers.iter().map(|e| e.1.clone()).collect();
    assert_eq!(got, vec![a(1), a(2), mx(5, "mx.example")]);

    let mut ev = event("example", RecordType::Any);
    assert_eq!(on_any_query(&tree, &mut ev, false), Ok(()));
    assert_eq!(ev.answers.len(), 1);
    assert_eq!(
        ev.answers[0].1,
        Record { class: CLASS_IN, ttl: 3600, data: RData::HInfo { cpu: "RFC8482".to_string(), os: String::new() } }
    );

    let mut ev = event("nothing.else", RecordType::Any);
    assert_eq!(on_any_query(&tree, &mut ev, true), Err(ResponseCode::Refused));
}

#[test]
fn absent_name_under_apex_with_ns_is_nxdomain() {
    let mut tree = ZoneTree::new(ZoneKind::Hint);
    tree.register_zone(
        "example",
        ZoneKind::Master,
        ZoneKind::Hint,
        vec![
            ("example".to_string(), soa(7)),
            ("example".to_string(), ns("ns1.example")),
            ("ns1.example".to_string(), a(1)),
        ],
    );
    let mut ev = event("missing.example", RecordType::A);
    assert_eq!(on_a_query(&tree, &mut ev), Err(ResponseCode::NxDomain));
    assert!(ev.answers.is_empty());
    assert_eq!(ev.authority, vec![("example".to_string(), soa(7))]);
    assert!(ev.additional.is_empty());

    let mut ev = event("example", RecordType::Https);
    assert_eq!(resolve(&tree, &mut ev, RecordType::Https), Err(ResponseCode::NxDomain));
    assert_eq!(ev.authority, vec![("example".to_string(), soa(7))]);
}

#[test]
fn cut_below_apex_still_refers() {
    let mut tree = ZoneTree::new(ZoneKind::Hint);
    tree.register_zone(
        "example",
        ZoneKind::Master,
        ZoneKind::Hint,
        vec![
            ("example".to_string(), soa(7)),
            ("example".to_string(), ns("ns1.example")),
            ("sub.example".to_string(), ns("ns.sub.example")),
        ],
    );
    let mut ev = event("host.sub.example", RecordType::A);
    assert_eq!(on_a_query(&tree, &mut ev), Ok(()));
    assert_eq!(ev.authority, vec![("sub.example".to_string(), ns("ns.sub.example"))]);
}
