//! Zone transfer: the full AXFR walk and incremental IXFR from the journal.
use vstd::prelude::*;
use crate::record::{Record, RecordType, ResponseCode};
use crate::names::{child_name, join_label, labels_of, strip_labels, strip_leading_labels};
use crate::zone::{RecordSet, Txn, ZoneTree};
use crate::event::{RequestEvent, Entry, entries, lemma_entries_push};
use crate::resolve::{Named, Outcome, applied, bare, owned};

verus! {

/// The records of every set but the SOA set, each owned by `owner`.
pub open spec fn own_records(sets: Seq<RecordSet>, owner: Seq<char>) -> Seq<Named>
    decreases sets.len(),
{
    if sets.len() == 0 {
        Seq::empty()
    } else {
        own_records(sets.drop_last(), owner) + if sets.last().rtype == RecordType::Soa {
            Seq::empty()
        } else {
            owned(owner, sets.last().records@)
        }
    }
}

/// A node is a delegation boundary when it holds an SOA record.
pub open spec fn delegated(tree: ZoneTree, c: int) -> bool {
    tree.nodes@[c].spec_has(RecordType::Soa)
}

/// Depth-first: the records of node `n` but its SOA, owned by `owner`, then
/// those of each child that is not a delegation boundary, in child order.
pub open spec fn collect(tree: ZoneTree, n: int, owner: Seq<char>) -> Seq<Named>
    decreases tree.nodes@.len() - n, 1nat, 0nat,
{
    if 0 <= n < tree.nodes@.len() {
        own_records(tree.nodes@[n].sets@, owner) + collect_children(
            tree,
            n,
            tree.nodes@[n].children@.len() as nat,
            owner,
        )
    } else {
        Seq::empty()
    }
}

/// What the first `i` children of node `n` contribute to `collect`.
pub open spec fn collect_children(tree: ZoneTree, n: int, i: nat, owner: Seq<char>) -> Seq<Named>
    decreases tree.nodes@.len() - n, 0nat, i,
{
    if i == 0 || !(0 <= n < tree.nodes@.len()) || i > tree.nodes@[n].children@.len() {
        Seq::empty()
    } else {
        let (label, c) = tree.nodes@[n].children@[i - 1];
        collect_children(tree, n, (i - 1) as nat, owner) + if n < c < tree.nodes@.len() && !delegated(
            tree,
            c as int,
        ) {
            collect(tree, c as int, child_name(owner, label@))
        } else {
            Seq::empty()
        }
    }
}

/// The zone apex that a transfer for `name` works on, its owner name and
/// its SOA record.
pub open spec fn transfer_apex(tree: ZoneTree, name: Seq<char>) -> Option<(int, Seq<char>, Record)> {
    match tree.deepest(name) {
        Some((n, k)) => if tree.nodes@[n].spec_has(RecordType::Soa) {
            Some(
                (
                    n,
                    strip_labels(name, (labels_of(name).len() - k) as nat),
                    tree.nodes@[n].spec_records(RecordType::Soa)[0],
                ),
            )
        } else {
            None
        },
        None => None,
    }
}

/// The full transfer framed by the SOA record.
pub open spec fn axfr_answers(tree: ZoneTree, n: int, apex: Seq<char>, soa: Record) -> Seq<Named> {
    seq![(apex, soa)] + collect(tree, n, apex) + seq![(apex, soa)]
}

/// AXFR: REFUSED without an enclosing zone, SERVFAIL when the zone has no
/// SOA, else the SOA, every record of the zone, and the SOA again.
pub open spec fn axfr_spec(tree: ZoneTree, name: Seq<char>) -> Outcome {
    match tree.deepest(name) {
        None => bare(Err(ResponseCode::Refused)),
        Some((n, k)) => match transfer_apex(tree, name) {
            None => bare(Err(ResponseCode::ServFail)),
            Some((n, apex, soa)) => Outcome {
                answers: axfr_answers(tree, n, apex, soa),
                authority: Seq::empty(),
                additional: Seq::empty(),
                auth: Some(tree.nodes@[n].kind.spec_is_authoritative()),
                result: Ok(()),
            },
        },
    }
}

/// One transaction in IXFR form: SOA at the old serial, the deleted
/// records, SOA at the new serial, the added records.
pub open spec fn delta(t: Txn, apex: Seq<char>, soa: Record) -> Seq<Named> {
    seq![(apex, soa.spec_with_serial(t.serial_from))] + entries(t.deleted@) + seq![
        (apex, soa.spec_with_serial(t.serial_to)),
    ] + entries(t.added@)
}

/// The deltas of the transactions that start at `from` or later, in journal
/// order.
pub open spec fn deltas_from(txns: Seq<Txn>, apex: Seq<char>, soa: Record, from: u32) -> Seq<Named>
    decreases txns.len(),
{
    if txns.len() == 0 {
        Seq::empty()
    } else {
        deltas_from(txns.drop_last(), apex, soa, from) + if txns.last().serial_from >= from {
            delta(txns.last(), apex, soa)
        } else {
            Seq::empty()
        }
    }
}

/// The deltas of every transaction, in journal order.
pub open spec fn replay(txns: Seq<Txn>, apex: Seq<char>, soa: Record) -> Seq<Named>
    decreases txns.len(),
{
    if txns.len() == 0 {
        Seq::empty()
    } else {
        replay(txns.drop_last(), apex, soa) + delta(txns.last(), apex, soa)
    }
}

/// The serial of the first SOA record in the request's authority section
/// that is owned by the question's name.
pub open spec fn client_serial(req: Seq<Named>, name: Seq<char>) -> Option<u32>
    decreases req.len(),
{
    if req.len() == 0 {
        None
    } else if req[0].0 == name && req[0].1.spec_serial() is Some {
        req[0].1.spec_serial()
    } else {
        client_serial(req.subrange(1, req.len() as int), name)
    }
}

/// The journal holds a transaction starting at `s`.
pub open spec fn journal_has(txns: Seq<Txn>, s: u32) -> bool {
    exists|i: int| 0 <= i < txns.len() && (#[trigger] txns[i]).serial_from == s
}

/// The serial of an SOA record, zero for any other record.
pub open spec fn serial_of(soa: Record) -> u32 {
    match soa.spec_serial() {
        Some(s) => s,
        None => 0,
    }
}

/// IXFR answers for a client at `client`: the current SOA alone when the
/// client is current; the journal's deltas from its serial framed by the
/// current SOA when the journal knows that serial; the full zone otherwise.
pub open spec fn ixfr_answers(tree: ZoneTree, n: int, apex: Seq<char>, soa: Record, client: Option<u32>) -> Seq<Named> {
    match client {
        Some(s) => if s >= serial_of(soa) {
            seq![(apex, soa)]
        } else if journal_has(tree.nodes@[n].journal@, s) {
            seq![(apex, soa)] + deltas_from(tree.nodes@[n].journal@, apex, soa, s) + seq![(apex, soa)]
        } else {
            axfr_answers(tree, n, apex, soa)
        },
        None => axfr_answers(tree, n, apex, soa),
    }
}

pub open spec fn ixfr_spec(tree: ZoneTree, name: Seq<char>, client: Option<u32>) -> Outcome {
    match tree.deepest(name) {
        None => bare(Err(ResponseCode::Refused)),
        Some((n, k)) => match transfer_apex(tree, name) {
            None => bare(Err(ResponseCode::ServFail)),
            Some((n, apex, soa)) => Outcome {
                answers: ixfr_answers(tree, n, apex, soa, client),
                authority: Seq::empty(),
                additional: Seq::empty(),
                auth: Some(tree.nodes@[n].kind.spec_is_authoritative()),
                result: Ok(()),
            },
        },
    }
}

/// Appends every record of `recs`, each owned by `owner`.
fn push_all(section: &mut Vec<Entry>, owner: &String, recs: &Vec<Record>)
    ensures
        entries(final(section)@) == entries(old(section)@) + owned(owner@, recs@),
{
    let ghost start = entries(section@);
    let mut i: usize = 0;
    assert(owned(owner@, recs@.take(0)) =~= Seq::<Named>::empty());
    assert(start + Seq::<Named>::empty() =~= start);
    while i < recs.len()
        invariant
            i <= recs@.len(),
            entries(section@) == start + owned(owner@, recs@.take(i as int)),
        decreases recs@.len() - i,
    {
        let e = (owner.clone(), recs[i].duplicate());
        proof {
            lemma_entries_push(section@, e);
            assert(owned(owner@, recs@.take(i + 1)) =~= owned(owner@, recs@.take(i as int)).push(
                (owner@, recs@[i as int]),
            ));
        }
        section.push(e);
        i = i + 1;
    }
    assert(recs@.take(i as int) =~= recs@);
}

/// Appends the entries of `from` in order.
fn push_entries(section: &mut Vec<Entry>, from: &Vec<Entry>)
    ensures
        entries(final(section)@) == entries(old(section)@) + entries(from@),
{
    let ghost start = entries(section@);
    let mut i: usize = 0;
    assert(entries(from@.take(0)) =~= Seq::<Named>::empty());
    assert(start + Seq::<Named>::empty() =~= start);
    while i < from.len()
        invariant
            i <= from@.len(),
            entries(section@) == start + entries(from@.take(i as int)),
        decreases from@.len() - i,
    {
        let e = (from[i].0.clone(), from[i].1.duplicate());
        proof {
            lemma_entries_push(section@, e);
            assert(entries(from@.take(i + 1)) =~= entries(from@.take(i as int)).push((from@[i as int].0@, from@[i as int].1)));
        }
        section.push(e);
        i = i + 1;
    }
    assert(from@.take(i as int) =~= from@);
}

/// Appends the records of node `n` and of its subtree, stopping at
/// delegation boundaries, each owned by its name below `owner`.
fn collect_records(tree: &ZoneTree, n: usize, owner: &String, out: &mut Vec<Entry>)
    requires
        tree.wf(),
        n < tree.nodes@.len(),
    ensures
        entries(final(out)@) == entries(old(out)@) + collect(*tree, n as int, owner@),
    decreases tree.nodes@.len() - n, 1nat, 0nat,
{
    let ghost start = entries(out@);
    let z = tree.node(n);
    let mut i: usize = 0;
    assert(z.sets@.take(0) =~= Seq::<RecordSet>::empty());
    assert(start + Seq::<Named>::empty() =~= start);
    while i < z.sets.len()
        invariant
            *z == tree.nodes@[n as int],
            i <= z.sets@.len(),
            entries(out@) == start + own_records(z.sets@.take(i as int), owner@),
        decreases z.sets@.len() - i,
    {
        let ghost before = entries(out@);
        assert(z.sets@.take(i + 1).drop_last() =~= z.sets@.take(i as int));
        if z.sets[i].rtype != RecordType::Soa {
            push_all(out, owner, &z.sets[i].records);
        } else {
            assert(entries(out@) =~= before + Seq::<Named>::empty());
        }
        assert(entries(out@) =~= start + own_records(z.sets@.take(i + 1), owner@));
        i = i + 1;
    }
    assert(z.sets@.take(i as int) =~= z.sets@);
    let ghost mid = entries(out@);
    let mut j: usize = 0;
    assert(mid + Seq::<Named>::empty() =~= mid);
    while j < z.children.len()
        invariant
            tree.wf(),
            n < tree.nodes@.len(),
            *z == tree.nodes@[n as int],
            j <= z.children@.len(),
            entries(out@) == mid + collect_children(*tree, n as int, j as nat, owner@),
        decreases z.children@.len() - j,
    {
        let ghost before = entries(out@);
        let c = z.children[j].1;
        assert(n < c < tree.nodes@.len());
        if !tree.holds_type(c, RecordType::Soa) {
            let child_owner = join_label(owner, &z.children[j].0);
            collect_records(tree, c, &child_owner, out);
        } else {
            assert(entries(out@) =~= before + Seq::<Named>::empty());
        }
        assert(entries(out@) =~= mid + collect_children(*tree, n as int, (j + 1) as nat, owner@));
        j = j + 1;
    }
    assert(entries(out@) =~= start + collect(*tree, n as int, owner@));
}

impl ZoneTree {
    /// Every record below node `id` down to the delegation boundaries, SOA
    /// records aside, in depth-first order, each owned by its name below
    /// `owner`, the name of node `id`.
    pub fn get_all_records_recursive(&self, id: usize, owner: &String) -> (r: Vec<Entry>)
        requires
            self.wf(),
            id < self.nodes@.len(),
        ensures
            entries(r@) == collect(*self, id as int, owner@),
    {
        let mut out: Vec<Entry> = Vec::new();
        collect_records(self, id, owner, &mut out);
        assert(entries(out@) =~= collect(*self, id as int, owner@));
        out
    }
}

/// Finds the zone apex for a transfer: its node, owner name and SOA.
fn find_apex(tree: &ZoneTree, name: &String) -> (r: Result<(usize, String, Record), ResponseCode>)
    requires
        tree.wf(),
    ensures
        match r {
            Ok((n, apex, soa)) => transfer_apex(*tree, name@) == Some((n as int, apex@, soa)) && n
                < tree.nodes@.len(),
            Err(code) => transfer_apex(*tree, name@) is None && code == if tree.deepest(name@) is None {
                ResponseCode::Refused
            } else {
                ResponseCode::ServFail
            },
        },
{
    match tree.get_deepest_zone(name.as_str()) {
        None => Err(ResponseCode::Refused),
        Some((n, d, c)) => {
            match tree.node(n).get_records(RecordType::Soa) {
                Some(v) => {
                    if v.len() > 0 {
                        let apex = strip_leading_labels(name, c - d);
                        return Ok((n, apex, v[0].duplicate()));
                    }
                },
                None => {},
            }
            Err(ResponseCode::ServFail)
        },
    }
}

/// Answers an AXFR question: the zone's SOA, every record of the zone down
/// to its delegation boundaries, and the SOA again.
pub fn on_axfr_query(zones: &ZoneTree, event: &mut RequestEvent) -> (r: Result<(), ResponseCode>)
    requires
        zones.wf(),
    ensures
        applied(*old(event), *final(event), axfr_spec(*zones, old(event).query.name@)),
        r == axfr_spec(*zones, old(event).query.name@).result,
{
    let ghost e0 = *event;
    let name = event.query.name.clone();
    proof {
        assert(entries(e0.answers@) + Seq::<Named>::empty() =~= entries(e0.answers@));
        assert(entries(e0.authority@) + Seq::<Named>::empty() =~= entries(e0.authority@));
        assert(entries(e0.additional@) + Seq::<Named>::empty() =~= entries(e0.additional@));
    }
    match find_apex(zones, &name) {
        Err(code) => Err(code),
        Ok((n, apex, soa)) => {
            event.set_authoritative(zones.node(n).is_authority());
            event.add_answer(apex.as_str(), soa.duplicate());
            collect_records(zones, n, &apex, &mut event.answers);
            event.add_answer(apex.as_str(), soa);
            proof {
                assert(entries(event.answers@) =~= entries(e0.answers@) + axfr_answers(*zones, n as int, apex@, soa));
            }
            Ok(())
        },
    }
}

/// Finds the client's serial among the request's authority records.
fn find_client_serial(req: &Vec<Entry>, name: &String) -> (r: Option<u32>)
    ensures
        r == client_serial(entries(req@), name@),
{
    let mut i: usize = 0;
    assert(entries(req@).subrange(0, entries(req@).len() as int) =~= entries(req@));
    while i < req.len()
        invariant
            i <= req@.len(),
            client_serial(entries(req@), name@) == client_serial(
                entries(req@).subrange(i as int, req@.len() as int),
                name@,
            ),
        decreases req@.len() - i,
    {
        let ghost rest = entries(req@).subrange(i as int, req@.len() as int);
        assert(rest[0] == (req@[i as int].0@, req@[i as int].1));
        assert(rest.subrange(1, rest.len() as int) =~= entries(req@).subrange(i + 1, req@.len() as int));
        if req[i].0 == *name {
            match req[i].1.get_serial() {
                Some(s) => {
                    return Some(s);
                },
                None => {},
            }
        }
        i = i + 1;
    }
    None
}

/// Whether the journal holds a transaction starting at `s`.
fn journal_contains(txns: &Vec<Txn>, s: u32) -> (r: bool)
    ensures
        r == journal_has(txns@, s),
{
    let mut i: usize = 0;
    while i < txns.len()
        invariant
            i <= txns@.len(),
            forall|j: int| 0 <= j < i ==> (#[trigger] txns@[j]).serial_from != s,
        decreases txns@.len() - i,
    {
        if txns[i].serial_from == s {
            return true;
        }
        i = i + 1;
    }
    false
}

/// Appends the deltas of the journal's transactions that start at `from`
/// or later.
fn push_deltas(txns: &Vec<Txn>, apex: &String, soa: &Record, from: u32, out: &mut Vec<Entry>)
    ensures
        entries(final(out)@) == entries(old(out)@) + deltas_from(txns@, apex@, *soa, from),
{
    let ghost start = entries(out@);
    let mut i: usize = 0;
    assert(txns@.take(0) =~= Seq::<Txn>::empty());
    assert(start + Seq::<Named>::empty() =~= start);
    while i < txns.len()
        invariant
            i <= txns@.len(),
            entries(out@) == start + deltas_from(txns@.take(i as int), apex@, *soa, from),
        decreases txns@.len() - i,
    {
        let ghost before = entries(out@);
        let t = &txns[i];
        assert(txns@.take(i + 1).drop_last() =~= txns@.take(i as int));
        if t.serial_from >= from {
            let e1 = (apex.clone(), soa.with_serial(t.serial_from));
            proof {
                lemma_entries_push(out@, e1);
            }
            out.push(e1);
            push_entries(out, &t.deleted);
            let e2 = (apex.clone(), soa.with_serial(t.serial_to));
            proof {
                lemma_entries_push(out@, e2);
            }
            out.push(e2);
            push_entries(out, &t.added);
            assert(entries(out@) =~= before + delta(*t, apex@, *soa));
        } else {
            assert(entries(out@) =~= before + Seq::<Named>::empty());
        }
        assert(entries(out@) =~= start + deltas_from(txns@.take(i + 1), apex@, *soa, from));
        i = i + 1;
    }
    assert(txns@.take(i as int) =~= txns@);
}

/// Answers an IXFR question. The client's serial comes from the SOA record
/// in the request's authority section owned by the question's name.
pub fn on_ixfr_query(zones: &ZoneTree, event: &mut RequestEvent) -> (r: Result<(), ResponseCode>)
    requires
        zones.wf(),
    ensures
        applied(
            *old(event),
            *final(event),
            ixfr_spec(
                *zones,
                old(event).query.name@,
                client_serial(entries(old(event).request_authority@), old(event).query.name@),
            ),
        ),
        r == ixfr_spec(
            *zones,
            old(event).query.name@,
            client_serial(entries(old(event).request_authority@), old(event).query.name@),
        ).result,
{
    let ghost e0 = *event;
    let name = event.query.name.clone();
    let client = find_client_serial(&event.request_authority, &name);
    proof {
        assert(entries(e0.answers@) + Seq::<Named>::empty() =~= entries(e0.answers@));
        assert(entries(e0.authority@) + Seq::<Named>::empty() =~= entries(e0.authority@));
        assert(entries(e0.additional@) + Seq::<Named>::empty() =~= entries(e0.additional@));
    }
    match find_apex(zones, &name) {
        Err(code) => Err(code),
        Ok((n, apex, soa)) => {
            let z = zones.node(n);
            event.set_authoritative(z.is_authority());
            let current: u32 = match soa.get_serial() {
                Some(s) => s,
                None => 0,
            };
            event.add_answer(apex.as_str(), soa.duplicate());
            match client {
                Some(s) => {
                    if s >= current {
                        proof {
                            assert(entries(event.answers@) =~= entries(e0.answers@) + ixfr_answers(
                                *zones,
                                n as int,
                                apex@,
                                soa,
                                client,
                            ));
                        }
                        return Ok(());
                    }
                    if journal_contains(&z.journal, s) {
                        push_deltas(&z.journal, &apex, &soa, s, &mut event.answers);
                        event.add_answer(apex.as_str(), soa);
                        proof {
                            assert(entries(event.answers@) =~= entries(e0.answers@) + ixfr_answers(
                                *zones,
                                n as int,
                                apex@,
                                soa,
                                client,
                            ));
                        }
                        return Ok(());
                    }
                },
                None => {},
            }
            collect_records(zones, n, &apex, &mut event.answers);
            event.add_answer(apex.as_str(), soa);
            proof {
                assert(entries(event.answers@) =~= entries(e0.answers@) + ixfr_answers(
                    *zones,
                    n as int,
                    apex@,
                    soa,
                    client,
                ));
            }
            Ok(())
        },
    }
}

} // verus!
