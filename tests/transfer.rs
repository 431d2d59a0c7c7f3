use find9::event::{Query, RequestEvent};
use find9::record::{RData, Record, RecordType, ResponseCode, CLASS_IN};
use find9::transfer::{on_axfr_query, on_ixfr_query};
use find9::zone::{Txn, ZoneKind, ZoneTree};

fn a(addr: u32) -> Record {
    Record { class: CLASS_IN, ttl: 300, data: RData::A { address: addr } }
}

fn txt(text: &str) -> Record {
    Record { class: CLASS_IN, ttl: 300, data: RData::Txt { text: text.to_string() } }
}

fn soa(serial: u32) -> Record {
    Record {
        class: CLASS_IN,
        ttl: 3600,
        data: RData::Soa {
            mname: "ns1.example".to_string(),
            rname: "admin.example".to_string(),
            serial,
            refresh: 7200,
            retry: 3600,
            expire: 1209600,
            minimum: 300,
        },
    }
}

fn zone() -> ZoneTree {
    let mut tree = ZoneTree::new(ZoneKind::Hint);
    tree.register_zone(
        "example",
        ZoneKind::Master,
        ZoneKind::Hint,
        vec![
            ("example".to_string(), soa(3)),
            ("example".to_string(), a(1)),
            ("www.example".to_string(), a(2)),
            ("www.example".to_string(), txt("hello")),
            ("deep.www.example".to_string(), a(3)),
        ],
    );
    tree.register_zone(
        "sub.example",
        ZoneKind::Master,
        ZoneKind::Hint,
        vec![("sub.example".to_string(), soa(9)), ("host.sub.example".to_string(), a(4))],
    );
    let mut t1 = Txn { serial_from: 1, serial_to: 2, deleted: Vec::new(), added: Vec::new() };
    t1.deleted.push(("old.example".to_string(), a(10)));
    t1.added.push(("www.example".to_string(), a(2)));
    let mut t2 = Txn { serial_from: 2, serial_to: 3, deleted: Vec::new(), added: Vec::new() };
    t2.added.push(("deep.www.example".to_string(), a(3)));
    assert!(tree.register_journal("example", vec![t1, t2]));
    tree
}

fn event(name: &str, t: RecordType, client: Option<u32>) -> RequestEvent {
    let mut auth = Vec::new();
    if let Some(s) = client {
        auth.push((name.to_string(), soa(s)));
    }
    RequestEvent::new(Query { name: name.to_string(), class: CLASS_IN, rtype: t }, auth)
}

fn full_dump() -> Vec<(String, Record)> {
    vec![
        ("example".to_string(), soa(3)),
        ("example".to_string(), a(1)),
        ("www.example".to_string(), a(2)),
        ("www.example".to_string(), txt("hello")),
        ("deep.www.example".to_string(), a(3)),
        ("example".to_string(), soa(3)),
    ]
}

#[test]
fn axfr_framed_by_soa_without_delegated_zone() {
    let tree = zone();
    let mut ev = event("example", RecordType::Axfr, None);
    assert_eq!(on_axfr_query(&tree, &mut ev), Ok(()));
    assert_eq!(ev.answers, full_dump());
    assert!(ev.answers.iter().all(|e| e.0 != "host.sub.example"));
    assert!(ev.authoritative);
}

#[test]
fn axfr_without_soa_is_servfail() {
    let mut tree = ZoneTree::new(ZoneKind::Hint);
    tree.register_zone("bare", ZoneKind::Master, ZoneKind::Hint, vec![("bare".to_string(), a(1))]);
    let mut ev = event("bare", RecordType::Axfr, None);
    assert_eq!(on_axfr_query(&tree, &mut ev), Err(ResponseCode::ServFail));
    assert!(ev.answers.is_empty());
}

#[test]
fn axfr_of_unknown_zone_is_refused() {
    let tree = zone();
    let mut ev = event("other", RecordType::Axfr, None);
    assert_eq!(on_axfr_query(&tree, &mut ev), Err(ResponseCode::Refused));
}

#[test]
fn ixfr_current_client_gets_soa_only() {
    let tree = zone();
    let mut ev = event("example", RecordType::Ixfr, Some(3));
    assert_eq!(on_ixfr_query(&tree, &mut ev), Ok(()));
    assert_eq!(ev.answers, vec![("example".to_string(), soa(3))]);
}

#[test]
fn ixfr_from_earliest_serial_replays_journal() {
    let tree = zone();
    let mut ev = event("example", RecordType::Ixfr, Some(1));
    assert_eq!(on_ixfr_query(&tree, &mut ev), Ok(()));
    assert_eq!(
        ev.answers,
        vec![
            ("example".to_string(), soa(3)),
            ("example".to_string(), soa(1)),
            ("old.example".to_string(), a(10)),
            ("example".to_string(), soa(2)),
            ("www.example".to_string(), a(2)),
            ("example".to_string(), soa(2)),
            ("example".to_string(), soa(3)),
            ("deep.www.example".to_string(), a(3)),
            ("example".to_string(), soa(3)),
        ]
    );
}

#[test]
fn ixfr_from_later_serial_sends_later_deltas() {
    let tree = zone();
    let mut ev = event("example", RecordType::Ixfr, Some(2));
    assert_eq!(on_ixfr_query(&tree, &mut ev), Ok(()));
    assert_eq!(
        ev.answers,
        vec![
            ("example".to_string(), soa(3)),
            ("example".to_string(), soa(2)),
            ("example".to_string(), soa(3)),
            ("deep.www.example".to_string(), a(3)),
            ("example".to_string(), soa(3)),
        ]
    );
}

#[test]
fn ixfr_from_unknown_serial_is_full_dump() {
    let tree = zone();
    let mut ev = event("example", RecordType::Ixfr, Some(0));
    assert_eq!(on_ixfr_query(&tree, &mut ev), Ok(()));
    assert_eq!(ev.answers, full_dump());
    let mut ev = event("example", RecordType::Ixfr, None);
    assert_eq!(on_ixfr_query(&tree, &mut ev), Ok(()));
    assert_eq!(ev.answers, full_dump());
}

#[test]
fn recursive_records_stop_at_delegations() {
    let tree = zone();
    let id = tree.get_zone_exact("example").unwrap();
    let all = tree.get_all_records_recursive(id, &"example".to_string());
    let inner: Vec<(String, Record)> = full_dump()[1..5].to_vec();
    assert_eq!(all, inner);
    assert_eq!(tree.node(id).get_all_records().len(), 2);
}

fn apply_body(mut state: Vec<(String, Record)>, body: &[(String, Record)]) -> Vec<(String, Record)> {
    let mut adding = true;
    for entry in body {
        if entry.1.get_type() == RecordType::Soa {
            adding = !adding;
        } else if adding {
            state.push(entry.clone());
        } else if let Some(k) = state.iter().position(|e| e == entry) {
            state.remove(k);
        }
    }
    state
}

#[test]
fn ixfr_body_reproduces_journal_state() {
    let tree = zone();
    let mut ev = event("example", RecordType::Ixfr, Some(1));
    assert_eq!(on_ixfr_query(&tree, &mut ev), Ok(()));
    let body = &ev.answers[1..ev.answers.len() - 1];
    let start = vec![("old.example".to_string(), a(10)), ("x.example".to_string(), a(5))];
    let after = apply_body(start, body);
    assert_eq!(
        after,
        vec![
            ("x.example".to_string(), a(5)),
            ("www.example".to_string(), a(2)),
            ("deep.www.example".to_string(), a(3)),
        ]
    );
}
