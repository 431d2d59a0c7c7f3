use find9::names::{join_label, name_labels, split_domain, strip_first_label, strip_leading_labels};
use find9::record::{RData, Record, RecordType, CLASS_IN};
use find9::zone::{Txn, Zone, ZoneKind, ZoneTree};

fn a(addr: u32) -> Record {
    Record { class: CLASS_IN, ttl: 60, data: RData::A { address: addr } }
}

fn txn(from: u32, to: u32) -> Txn {
    Txn { serial_from: from, serial_to: to, deleted: Vec::new(), added: Vec::new() }
}

#[test]
fn labels_ignore_trailing_dots() {
    assert_eq!(name_labels("www.example.com."), vec!["www", "example", "com"]);
    assert_eq!(name_labels("www.example.com"), vec!["www", "example", "com"]);
    assert_eq!(name_labels("com.."), vec!["com"]);
    assert_eq!(name_labels(""), vec![""]);
}

#[test]
fn split_domain_cases() {
    assert_eq!(split_domain("www.find9.net"), Some(("www".to_string(), "find9.net".to_string())));
    assert_eq!(split_domain("a.b.find9.net."), Some(("a.b".to_string(), "find9.net".to_string())));
    assert_eq!(split_domain("find9.net"), Some(("@".to_string(), "find9.net".to_string())));
    assert_eq!(split_domain("localhost"), Some(("@".to_string(), "localhost".to_string())));
}

#[test]
fn stripping_labels() {
    assert_eq!(strip_first_label("www.example."), "example.");
    assert_eq!(strip_first_label("example"), "");
    assert_eq!(strip_leading_labels(&"a.b.c".to_string(), 2), "c");
    assert_eq!(strip_leading_labels(&"a.b.c".to_string(), 0), "a.b.c");
}

#[test]
fn joining_owner_names() {
    assert_eq!(join_label(&"example".to_string(), &"www".to_string()), "www.example");
    assert_eq!(join_label(&"example".to_string(), &String::new()), "example");
}

#[test]
fn records_keep_insertion_order_per_type() {
    let mut z = Zone::new(ZoneKind::Master);
    z.add_record(a(1));
    z.add_record(Record { class: CLASS_IN, ttl: 60, data: RData::Txt { text: "t".to_string() } });
    z.add_record(a(2));
    assert_eq!(z.get_records(RecordType::A), Some(&vec![a(1), a(2)]));
    assert_eq!(z.get_records(RecordType::Txt).map(|v| v.len()), Some(1));
    assert_eq!(z.get_records(RecordType::Mx), None);
    assert!(z.is_authority());
    z.set_type(ZoneKind::Stub);
    assert!(!z.is_authority());
    assert_eq!(z.get_type(), ZoneKind::Stub);
}

#[test]
fn deepest_zone_matches_enclosing_node() {
    let mut tree = ZoneTree::new(ZoneKind::Hint);
    tree.add_record_to("www.example.net", a(1), ZoneKind::Stub);
    let (n, depth, count) = tree.get_deepest_zone("x.www.example.net").unwrap();
    assert_eq!((depth, count), (3, 4));
    assert_eq!(tree.node(n).get_records(RecordType::A), Some(&vec![a(1)]));
    assert_eq!(tree.get_deepest_zone("example.org"), None);
    assert_eq!(tree.get_zone_exact("x.www.example.net"), None);
    assert_eq!(tree.get_zone_exact("www.example.net."), Some(n));
    let mid = tree.get_zone_exact("example.net").unwrap();
    assert_eq!(tree.node(mid).get_type(), ZoneKind::Stub);
}

#[test]
fn deepest_zone_with_records_finds_nearest() {
    let mut tree = ZoneTree::new(ZoneKind::Hint);
    tree.add_record_to("example.net", a(1), ZoneKind::Hint);
    tree.add_record_to("a.b.example.net", a(2), ZoneKind::Hint);
    let (owner, n) = tree.get_deepest_zone_with_records(&"c.b.example.net".to_string(), RecordType::A).unwrap();
    assert_eq!(owner, "example.net");
    assert_eq!(tree.node(n).get_records(RecordType::A), Some(&vec![a(1)]));
    let (owner, _) = tree.get_deepest_zone_with_records(&"z.a.b.example.net".to_string(), RecordType::A).unwrap();
    assert_eq!(owner, "a.b.example.net");
    assert!(tree.get_deepest_zone_with_records(&"org".to_string(), RecordType::A).is_none());
}

#[test]
fn add_zone_keeps_records_and_sets_kind() {
    let mut tree = ZoneTree::new(ZoneKind::Hint);
    tree.add_record_to("example", a(1), ZoneKind::Hint);
    let id = tree.add_zone_to("example", ZoneKind::Master, ZoneKind::Hint);
    assert_eq!(tree.node(id).get_type(), ZoneKind::Master);
    assert_eq!(tree.node(id).get_records(RecordType::A), Some(&vec![a(1)]));
    let sub = tree.node(0).get_sub_zone(&"example".to_string());
    assert_eq!(sub, Some(id));
    assert!(tree.node(0).has_sub_zone(&"example".to_string()));
    assert!(!tree.node(0).has_sub_zone(&"other".to_string()));
}

#[test]
fn journal_orders_and_replaces_by_serial() {
    let mut z = Zone::new(ZoneKind::Master);
    z.add_txn(txn(5, 6));
    z.add_txn(txn(1, 2));
    z.add_txn(txn(3, 4));
    let mut replacement = txn(3, 5);
    replacement.added.push(("x".to_string(), a(8)));
    z.add_txn(replacement);
    let serials: Vec<(u32, u32)> = z.journal.iter().map(|t| (t.serial_from, t.serial_to)).collect();
    assert_eq!(serials, vec![(1, 2), (3, 5), (5, 6)]);
}

#[test]
fn register_journal_needs_a_zone() {
    let mut tree = ZoneTree::new(ZoneKind::Hint);
    assert!(!tree.register_journal("missing", vec![txn(1, 2)]));
    tree.register_zone("example", ZoneKind::Master, ZoneKind::Hint, vec![("example".to_string(), a(1))]);
    assert!(tree.register_journal("example", vec![txn(2, 3), txn(1, 2)]));
    let id = tree.get_zone_exact("example").unwrap();
    let serials: Vec<u32> = tree.node(id).journal.iter().map(|t| t.serial_from).collect();
    assert_eq!(serials, vec![1, 2]);
}

#[test]
fn register_zone_kinds_and_order() {
    let mut tree = ZoneTree::new(ZoneKind::Hint);
    tree.register_zone(
        "a.b.c",
        ZoneKind::Master,
        ZoneKind::Stub,
        vec![("x.a.b.c".to_string(), a(1)), ("a.b.c".to_string(), a(2)), ("x.a.b.c.".to_string(), a(3))],
    );
    let c = tree.get_zone_exact("c").unwrap();
    let b = tree.get_zone_exact("b.c").unwrap();
    let apex = tree.get_zone_exact("a.b.c").unwrap();
    let x = tree.get_zone_exact("x.a.b.c").unwrap();
    assert_eq!(tree.node(c).get_type(), ZoneKind::Stub);
    assert_eq!(tree.node(b).get_type(), ZoneKind::Stub);
    assert_eq!(tree.node(apex).get_type(), ZoneKind::Master);
    assert_eq!(tree.node(x).get_type(), ZoneKind::Master);
    assert_eq!(tree.node(x).get_records(RecordType::A), Some(&vec![a(1), a(3)]));
    assert_eq!(tree.node(apex).get_records(RecordType::A), Some(&vec![a(2)]));
    assert_eq!(tree.node(b).get_records(RecordType::A), None);
}
