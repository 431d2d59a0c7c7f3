//! The resolution algorithm shared by every record-type strategy: CNAME
//! chasing, answers, referrals with glue, and negative answers carrying the
//! enclosing zone's SOA.
use vstd::prelude::*;
use crate::record::{Record, RecordType, ResponseCode};
use crate::names::{labels_of, strip_labels, strip_leading_labels};
use crate::zone::ZoneTree;
use crate::event::{RequestEvent, Entry, entries, lemma_entries_push};
use crate::{MAX_ANSWERS, MAX_CNAME_CHAIN_SIZE};

verus! {

/// An owner name and a record, with the name as characters.
pub type Named = (Seq<char>, Record);

/// What resolving one question adds to a response: the entries appended to
/// each section, the authoritative flag it sets (if any) and the result.
pub struct Outcome {
    pub answers: Seq<Named>,
    pub authority: Seq<Named>,
    pub additional: Seq<Named>,
    pub auth: Option<bool>,
    pub result: Result<(), ResponseCode>,
}

/// An outcome that adds nothing and ends in `result`.
pub open spec fn bare(result: Result<(), ResponseCode>) -> Outcome {
    Outcome {
        answers: Seq::empty(),
        authority: Seq::empty(),
        additional: Seq::empty(),
        auth: None,
        result,
    }
}

/// At most the first `MAX_ANSWERS` records.
pub open spec fn capped(recs: Seq<Record>) -> Seq<Record> {
    if recs.len() <= MAX_ANSWERS {
        recs
    } else {
        recs.take(MAX_ANSWERS as int)
    }
}

/// The records, each owned by `name`.
pub open spec fn owned(name: Seq<char>, recs: Seq<Record>) -> Seq<Named> {
    recs.map_values(|r: Record| (name, r))
}

/// The glue for `host`: its first A record and its first AAAA record, those
/// that exist.
pub open spec fn glue_for(tree: ZoneTree, host: Seq<char>) -> Seq<Named> {
    match tree.exact(host) {
        Some(n) => {
            let a = tree.nodes@[n].spec_records(RecordType::A);
            let aaaa = tree.nodes@[n].spec_records(RecordType::Aaaa);
            (if a.len() > 0 {
                seq![(host, a[0])]
            } else {
                Seq::empty()
            }) + (if aaaa.len() > 0 {
                seq![(host, aaaa[0])]
            } else {
                Seq::empty()
            })
        },
        None => Seq::empty(),
    }
}

/// The glue for the servers that the NS records among `recs` name.
pub open spec fn referral_glue(tree: ZoneTree, recs: Seq<Record>) -> Seq<Named>
    decreases recs.len(),
{
    if recs.len() == 0 {
        Seq::empty()
    } else {
        referral_glue(tree, recs.drop_last()) + match recs.last().spec_ns_server() {
            Some(s) => glue_for(tree, s@),
            None => Seq::empty(),
        }
    }
}

/// The glue for the hosts that the MX and HTTPS records among `recs` name.
pub open spec fn answer_glue(tree: ZoneTree, recs: Seq<Record>) -> Seq<Named>
    decreases recs.len(),
{
    if recs.len() == 0 {
        Seq::empty()
    } else {
        answer_glue(tree, recs.drop_last()) + match recs.last().spec_answer_host() {
            Some(s) => glue_for(tree, s@),
            None => Seq::empty(),
        }
    }
}

/// The negative answer for `name`: NXDOMAIN with the SOA of the nearest
/// enclosing zone that has one, or REFUSED when no zone encloses it.
pub open spec fn negative(tree: ZoneTree, name: Seq<char>) -> Outcome {
    match tree.deepest_with(name, RecordType::Soa) {
        Some((n, k)) => Outcome {
            answers: Seq::empty(),
            authority: seq![
                (
                    strip_labels(name, (labels_of(name).len() - k) as nat),
                    tree.nodes@[n].spec_records(RecordType::Soa)[0],
                ),
            ],
            additional: Seq::empty(),
            auth: Some(tree.nodes@[n].kind.spec_is_authoritative()),
            result: Err(ResponseCode::NxDomain),
        },
        None => bare(Err(ResponseCode::Refused)),
    }
}

/// A delegation point: a node with NS records and no SOA record of its own.
/// The apex of a zone holds both and is no cut.
pub open spec fn is_zone_cut(node: crate::zone::Zone) -> bool {
    node.spec_has(RecordType::Ns) && !node.spec_has(RecordType::Soa)
}

/// Resolving `name` for type `t` after `hops` CNAME records were followed.
pub open spec fn resolve_spec(tree: ZoneTree, name: Seq<char>, t: RecordType, hops: nat) -> Outcome
    decreases MAX_CNAME_CHAIN_SIZE - hops,
{
    match tree.deepest(name) {
        None => negative(tree, name),
        Some((n, k)) => {
            let node = tree.nodes@[n];
            let exact = k == labels_of(name).len();
            if exact && node.spec_has(RecordType::CName) {
                if hops >= MAX_CNAME_CHAIN_SIZE {
                    bare(Err(ResponseCode::ServFail))
                } else {
                    let c = node.spec_records(RecordType::CName)[0];
                    let rest = resolve_spec(tree, c.spec_cname_target(), t, hops + 1);
                    Outcome {
                        answers: seq![(name, c)] + rest.answers,
                        authority: rest.authority,
                        additional: rest.additional,
                        auth: match rest.auth {
                            Some(b) => Some(b),
                            None => Some(node.kind.spec_is_authoritative()),
                        },
                        result: rest.result,
                    }
                }
            } else if exact && node.spec_has(t) {
                let recs = capped(node.spec_records(t));
                Outcome {
                    answers: owned(name, recs),
                    authority: Seq::empty(),
                    additional: answer_glue(tree, recs),
                    auth: Some(node.kind.spec_is_authoritative()),
                    result: Ok(()),
                }
            } else if is_zone_cut(node) {
                let recs = capped(node.spec_records(RecordType::Ns));
                Outcome {
                    answers: Seq::empty(),
                    authority: owned(strip_labels(name, (labels_of(name).len() - k) as nat), recs),
                    additional: referral_glue(tree, recs),
                    auth: None,
                    result: Ok(()),
                }
            } else {
                negative(tree, name)
            }
        },
    }
}

/// `b` is `a` with the outcome `o` applied.
pub open spec fn applied(a: RequestEvent, b: RequestEvent, o: Outcome) -> bool {
    &&& entries(b.answers@) == entries(a.answers@) + o.answers
    &&& entries(b.authority@) == entries(a.authority@) + o.authority
    &&& entries(b.additional@) == entries(a.additional@) + o.additional
    &&& b.authoritative == match o.auth {
        Some(x) => x,
        None => a.authoritative,
    }
    &&& b.query == a.query
    &&& b.prevent_default == a.prevent_default
    &&& b.request_authority == a.request_authority
}

/// Appends the first `MAX_ANSWERS` records, each owned by `owner`.
fn push_owned(section: &mut Vec<Entry>, owner: &String, recs: &Vec<Record>)
    ensures
        entries(final(section)@) == entries(old(section)@) + owned(owner@, capped(recs@)),
{
    let ghost start = entries(section@);
    let n: usize = if recs.len() <= MAX_ANSWERS { recs.len() } else { MAX_ANSWERS };
    let mut i: usize = 0;
    while i < n
        invariant
            n <= recs@.len(),
            n == capped(recs@).len(),
            i <= n,
            entries(section@) == start + owned(owner@, capped(recs@).take(i as int)),
        decreases n - i,
    {
        let e = (owner.clone(), recs[i].duplicate());
        proof {
            lemma_entries_push(section@, e);
            assert(capped(recs@)[i as int] == recs@[i as int]);
            assert(owned(owner@, capped(recs@).take(i + 1)) =~= owned(owner@, capped(recs@).take(i as int)).push(
                (owner@, recs@[i as int]),
            ));
        }
        section.push(e);
        i = i + 1;
    }
    assert(capped(recs@).take(n as int) =~= capped(recs@));
}

/// Appends the glue for `host`.
pub fn add_glue(tree: &ZoneTree, host: &String, section: &mut Vec<Entry>)
    requires
        tree.wf(),
    ensures
        entries(final(section)@) == entries(old(section)@) + glue_for(*tree, host@),
{
    let ghost start = entries(section@);
    match tree.get_zone_exact(host.as_str()) {
        Some(n) => {
            match tree.node(n).get_records(RecordType::A) {
                Some(v) => {
                    if v.len() > 0 {
                        let e = (host.clone(), v[0].duplicate());
                        proof {
                            lemma_entries_push(section@, e);
                        }
                        section.push(e);
                    }
                },
                None => {},
            }
            let ghost after_a = entries(section@);
            match tree.node(n).get_records(RecordType::Aaaa) {
                Some(v) => {
                    if v.len() > 0 {
                        let e = (host.clone(), v[0].duplicate());
                        proof {
                            lemma_entries_push(section@, e);
                        }
                        section.push(e);
                    }
                },
                None => {},
            }
            proof {
                let a = tree.nodes@[n as int].spec_records(RecordType::A);
                let aaaa = tree.nodes@[n as int].spec_records(RecordType::Aaaa);
                let ga: Seq<Named> = if a.len() > 0 { seq![(host@, a[0])] } else { Seq::empty() };
                let gb: Seq<Named> = if aaaa.len() > 0 { seq![(host@, aaaa[0])] } else { Seq::empty() };
                assert(after_a =~= start + ga);
                assert(entries(section@) =~= after_a + gb);
                assert(entries(section@) =~= start + (ga + gb));
                assert(tree.exact(host@) == Some(n as int));
                assert(glue_for(*tree, host@) == ga + gb);
            }
        },
        None => {
            assert(tree.exact(host@) is None);
            assert(entries(section@) =~= start + Seq::<Named>::empty());
        },
    }
}

/// Appends the glue for the servers named by the first `MAX_ANSWERS`
/// NS records of `recs`.
fn push_referral_glue(tree: &ZoneTree, recs: &Vec<Record>, section: &mut Vec<Entry>)
    requires
        tree.wf(),
    ensures
        entries(final(section)@) == entries(old(section)@) + referral_glue(*tree, capped(recs@)),
{
    let ghost start = entries(section@);
    let n: usize = if recs.len() <= MAX_ANSWERS { recs.len() } else { MAX_ANSWERS };
    let mut i: usize = 0;
    assert(capped(recs@).take(0) =~= Seq::<Record>::empty());
    assert(start + Seq::<Named>::empty() =~= start);
    while i < n
        invariant
            tree.wf(),
            n <= recs@.len(),
            n == capped(recs@).len(),
            i <= n,
            entries(section@) == start + referral_glue(*tree, capped(recs@).take(i as int)),
        decreases n - i,
    {
        let ghost before = entries(section@);
        let r = &recs[i];
        assert(capped(recs@).take(i + 1).drop_last() =~= capped(recs@).take(i as int));
        assert(capped(recs@)[i as int] == recs@[i as int]);
        match r.ns_server() {
            Some(s) => {
                add_glue(tree, s, section);
            },
            None => {
                assert(entries(section@) =~= before + Seq::<Named>::empty());
            },
        }
        assert(entries(section@) =~= start + referral_glue(*tree, capped(recs@).take(i + 1)));
        i = i + 1;
    }
    assert(capped(recs@).take(n as int) =~= capped(recs@));
}

/// Appends the glue for the hosts named by the first `MAX_ANSWERS` MX and
/// HTTPS records of `recs`.
fn push_answer_glue(tree: &ZoneTree, recs: &Vec<Record>, section: &mut Vec<Entry>)
    requires
        tree.wf(),
    ensures
        entries(final(section)@) == entries(old(section)@) + answer_glue(*tree, capped(recs@)),
{
    let ghost start = entries(section@);
    let n: usize = if recs.len() <= MAX_ANSWERS { recs.len() } else { MAX_ANSWERS };
    let mut i: usize = 0;
    assert(capped(recs@).take(0) =~= Seq::<Record>::empty());
    assert(start + Seq::<Named>::empty() =~= start);
    while i < n
        invariant
            tree.wf(),
            n <= recs@.len(),
            n == capped(recs@).len(),
            i <= n,
            entries(section@) == start + answer_glue(*tree, capped(recs@).take(i as int)),
        decreases n - i,
    {
        let ghost before = entries(section@);
        let r = &recs[i];
        assert(capped(recs@).take(i + 1).drop_last() =~= capped(recs@).take(i as int));
        assert(capped(recs@)[i as int] == recs@[i as int]);
        match r.answer_host() {
            Some(s) => {
                add_glue(tree, s, section);
            },
            None => {
                assert(entries(section@) =~= before + Seq::<Named>::empty());
            },
        }
        assert(entries(section@) =~= start + answer_glue(*tree, capped(recs@).take(i + 1)));
        i = i + 1;
    }
    assert(capped(recs@).take(n as int) =~= capped(recs@));
}

/// Applies the negative answer for `name`.
fn negative_into(tree: &ZoneTree, name: &String, event: &mut RequestEvent) -> (r: Result<(), ResponseCode>)
    requires
        tree.wf(),
    ensures
        applied(*old(event), *final(event), negative(*tree, name@)),
        r == negative(*tree, name@).result,
{
    let ghost e0 = *event;
    proof {
        tree.lemma_deepest_with_has(labels_of(name@), 0, RecordType::Soa, None);
    }
    match tree.get_deepest_zone_with_records(name, RecordType::Soa) {
        Some((owner, n)) => {
            let z = tree.node(n);
            match z.get_records(RecordType::Soa) {
                Some(v) => {
                    if v.len() > 0 {
                        event.set_authoritative(z.is_authority());
                        event.add_authority_record(owner.as_str(), v[0].duplicate());
                        proof {
                            assert(entries(event.answers@) =~= entries(e0.answers@) + Seq::<Named>::empty());
                            assert(entries(event.additional@) =~= entries(e0.additional@) + Seq::<Named>::empty());
                            assert(entries(event.authority@) =~= entries(e0.authority@) + negative(*tree, name@).authority);
                        }
                        return Err(ResponseCode::NxDomain);
                    }
                },
                None => {},
            }
            proof {
                assert(false);
            }
            Err(ResponseCode::Refused)
        },
        None => {
            proof {
                assert(entries(event.answers@) =~= entries(e0.answers@) + Seq::<Named>::empty());
                assert(entries(event.authority@) =~= entries(e0.authority@) + Seq::<Named>::empty());
                assert(entries(event.additional@) =~= entries(e0.additional@) + Seq::<Named>::empty());
            }
            Err(ResponseCode::Refused)
        },
    }
}

/// Resolves `name` for type `t` into `event`, after `hops` CNAME records.
fn resolve_into(tree: &ZoneTree, name: &String, t: RecordType, hops: usize, event: &mut RequestEvent) -> (r: Result<(), ResponseCode>)
    requires
        tree.wf(),
        hops <= MAX_CNAME_CHAIN_SIZE,
    ensures
        applied(*old(event), *final(event), resolve_spec(*tree, name@, t, hops as nat)),
        r == resolve_spec(*tree, name@, t, hops as nat).result,
    decreases MAX_CNAME_CHAIN_SIZE - hops,
{
    let ghost e0 = *event;
    match tree.get_deepest_zone(name.as_str()) {
        None => negative_into(tree, name, event),
        Some((n, d, c)) => {
            let z = tree.node(n);
            let cnames = z.get_records(RecordType::CName);
            if d == c && cnames.is_some() && cnames.unwrap().len() > 0 {
                let cnames = cnames.unwrap();
                if hops >= MAX_CNAME_CHAIN_SIZE {
                    proof {
                        assert(entries(event.answers@) =~= entries(e0.answers@) + Seq::<Named>::empty());
                        assert(entries(event.authority@) =~= entries(e0.authority@) + Seq::<Named>::empty());
                        assert(entries(event.additional@) =~= entries(e0.additional@) + Seq::<Named>::empty());
                    }
                    return Err(ResponseCode::ServFail);
                }
                let c0 = &cnames[0];
                event.set_authoritative(z.is_authority());
                event.add_answer(name.as_str(), c0.duplicate());
                let ghost e1 = *event;
                let target: String = match c0.cname_target() {
                    Some(tg) => tg.clone(),
                    None => String::new(),
                };
                let r = resolve_into(tree, &target, t, hops + 1, event);
                proof {
                    let rest = resolve_spec(*tree, target@, t, (hops + 1) as nat);
                    let c = z.spec_records(RecordType::CName)[0];
                    assert(entries(e1.answers@) == entries(e0.answers@).push((name@, c)));
                    assert(entries(event.answers@) =~= entries(e0.answers@) + (seq![(name@, c)] + rest.answers));
                }
                r
            } else {
                match z.get_records(t) {
                    Some(v) => {
                        if d == c && v.len() > 0 {
                            event.set_authoritative(z.is_authority());
                            push_owned(&mut event.answers, name, v);
                            push_answer_glue(tree, v, &mut event.additional);
                            proof {
                                assert(entries(event.authority@) =~= entries(e0.authority@) + Seq::<Named>::empty());
                            }
                            return Ok(());
                        }
                    },
                    None => {},
                }
                let at_cut = !tree.holds_type(n, RecordType::Soa);
                match z.get_records(RecordType::Ns) {
                    Some(v) => {
                        if at_cut && v.len() > 0 {
                            let owner = strip_leading_labels(name, c - d);
                            push_owned(&mut event.authority, &owner, v);
                            push_referral_glue(tree, v, &mut event.additional);
                            proof {
                                assert(entries(event.answers@) =~= entries(e0.answers@) + Seq::<Named>::empty());
                            }
                            return Ok(());
                        }
                    },
                    None => {},
                }
                negative_into(tree, name, event)
            }
        },
    }
}

/// The result of a resolution strategy: success, or the response code of
/// the failure.
pub type ResponseResult = Result<(), ResponseCode>;

/// Resolves the event's question for type `t` with the shared algorithm.
pub fn resolve(tree: &ZoneTree, event: &mut RequestEvent, t: RecordType) -> (r: ResponseResult)
    requires
        tree.wf(),
    ensures
        applied(*old(event), *final(event), resolve_spec(*tree, old(event).query.name@, t, 0)),
        r == resolve_spec(*tree, old(event).query.name@, t, 0).result,
{
    let name = event.query.name.clone();
    resolve_into(tree, &name, t, 0, event)
}

pub fn on_a_query(zones: &ZoneTree, event: &mut RequestEvent) -> (r: ResponseResult)
    requires
        zones.wf(),
    ensures
        applied(*old(event), *final(event), resolve_spec(*zones, old(event).query.name@, RecordType::A, 0)),
        r == resolve_spec(*zones, old(event).query.name@, RecordType::A, 0).result,
{
    resolve(zones, event, RecordType::A)
}

pub fn on_aaaa_query(zones: &ZoneTree, event: &mut RequestEvent) -> (r: ResponseResult)
    requires
        zones.wf(),
    ensures
        applied(*old(event), *final(event), resolve_spec(*zones, old(event).query.name@, RecordType::Aaaa, 0)),
        r == resolve_spec(*zones, old(event).query.name@, RecordType::Aaaa, 0).result,
{
    resolve(zones, event, RecordType::Aaaa)
}

pub fn on_ns_query(zones: &ZoneTree, event: &mut RequestEvent) -> (r: ResponseResult)
    requires
        zones.wf(),
    ensures
        applied(*old(event), *final(event), resolve_spec(*zones, old(event).query.name@, RecordType::Ns, 0)),
        r == resolve_spec(*zones, old(event).query.name@, RecordType::Ns, 0).result,
{
    resolve(zones, event, RecordType::Ns)
}

pub fn on_mx_query(zones: &ZoneTree, event: &mut RequestEvent) -> (r: ResponseResult)
    requires
        zones.wf(),
    ensures
        applied(*old(event), *final(event), resolve_spec(*zones, old(event).query.name@, RecordType::Mx, 0)),
        r == resolve_spec(*zones, old(event).query.name@, RecordType::Mx, 0).result,
{
    resolve(zones, event, RecordType::Mx)
}

pub fn on_txt_query(zones: &ZoneTree, event: &mut RequestEvent) -> (r: ResponseResult)
    requires
        zones.wf(),
    ensures
        applied(*old(event), *final(event), resolve_spec(*zones, old(event).query.name@, RecordType::Txt, 0)),
        r == resolve_spec(*zones, old(event).query.name@, RecordType::Txt, 0).result,
{
    resolve(zones, event, RecordType::Txt)
}

pub fn on_soa_query(zones: &ZoneTree, event: &mut RequestEvent) -> (r: ResponseResult)
    requires
        zones.wf(),
    ensures
        applied(*old(event), *final(event), resolve_spec(*zones, old(event).query.name@, RecordType::Soa, 0)),
        r == resolve_spec(*zones, old(event).query.name@, RecordType::Soa, 0).result,
{
    resolve(zones, event, RecordType::Soa)
}

pub fn on_https_query(zones: &ZoneTree, event: &mut RequestEvent) -> (r: ResponseResult)
    requires
        zones.wf(),
    ensures
        applied(*old(event), *final(event), resolve_spec(*zones, old(event).query.name@, RecordType::Https, 0)),
        r == resolve_spec(*zones, old(event).query.name@, RecordType::Https, 0).result,
{
    resolve(zones, event, RecordType::Https)
}

pub fn on_svcb_query(zones: &ZoneTree, event: &mut RequestEvent) -> (r: ResponseResult)
    requires
        zones.wf(),
    ensures
        applied(*old(event), *final(event), resolve_spec(*zones, old(event).query.name@, RecordType::Svcb, 0)),
        r == resolve_spec(*zones, old(event).query.name@, RecordType::Svcb, 0).result,
{
    resolve(zones, event, RecordType::Svcb)
}

/// Every record set of a node, each cut to `MAX_ANSWERS` records, owned by
/// `name`, in the order the sets were created.
pub open spec fn all_sets(sets: Seq<crate::zone::RecordSet>, name: Seq<char>) -> Seq<Named>
    decreases sets.len(),
{
    if sets.len() == 0 {
        Seq::empty()
    } else {
        all_sets(sets.drop_last(), name) + owned(name, capped(sets.last().records@))
    }
}

/// The record that stands in for the answer to an ANY question when such
/// questions are not served: HINFO with CPU "RFC8482" and an empty OS.
pub open spec fn is_rfc8482_hinfo(r: Record) -> bool {
    &&& r.class == crate::record::CLASS_IN
    &&& r.ttl == 3600
    &&& r.data matches crate::record::RData::HInfo { cpu, os } && cpu@ == "RFC8482"@ && os@ == ""@
}

fn rfc8482_hinfo() -> (r: Record)
    ensures
        is_rfc8482_hinfo(r),
{
    Record {
        class: crate::record::CLASS_IN,
        ttl: 3600,
        data: crate::record::RData::HInfo { cpu: "RFC8482".to_owned(), os: "".to_owned() },
    }
}

/// Answers an ANY question: every record type at the node named exactly by
/// the question when `any_allowed`, else one synthetic HINFO record; a name
/// without a node gets the negative answer.
pub fn on_any_query(zones: &ZoneTree, event: &mut RequestEvent, any_allowed: bool) -> (r: ResponseResult)
    requires
        zones.wf(),
    ensures
        match zones.exact(old(event).query.name@) {
            None => applied(*old(event), *final(event), negative(*zones, old(event).query.name@))
                && r == negative(*zones, old(event).query.name@).result,
            Some(n) => r is Ok && final(event).authoritative == zones.nodes@[n].kind.spec_is_authoritative()
                && if any_allowed {
                applied(
                    *old(event),
                    *final(event),
                    Outcome {
                        answers: all_sets(zones.nodes@[n].sets@, old(event).query.name@),
                        authority: Seq::empty(),
                        additional: Seq::empty(),
                        auth: Some(zones.nodes@[n].kind.spec_is_authoritative()),
                        result: Ok(()),
                    },
                )
            } else {
                &&& final(event).answers@.len() == old(event).answers@.len() + 1
                &&& entries(final(event).answers@).drop_last() == entries(old(event).answers@)
                &&& final(event).answers@.last().0@ == old(event).query.name@
                &&& is_rfc8482_hinfo(final(event).answers@.last().1)
                &&& final(event).authority == old(event).authority
                &&& final(event).additional == old(event).additional
                &&& final(event).query == old(event).query
            },
        },
{
    let name = event.query.name.clone();
    let ghost e0 = *event;
    match zones.get_zone_exact(name.as_str()) {
        None => negative_into(zones, &name, event),
        Some(n) => {
            let z = zones.node(n);
            event.set_authoritative(z.is_authority());
            if any_allowed {
                let mut i: usize = 0;
                proof {
                    assert(z.sets@.take(0) =~= Seq::<crate::zone::RecordSet>::empty());
                    assert(entries(event.answers@) =~= entries(e0.answers@) + all_sets(z.sets@.take(0), name@));
                }
                while i < z.sets.len()
                    invariant
                        zones.wf(),
                        n < zones.nodes@.len(),
                        *z == zones.nodes@[n as int],
                        i <= z.sets@.len(),
                        entries(event.answers@) == entries(e0.answers@) + all_sets(z.sets@.take(i as int), name@),
                        event.authority == e0.authority,
                        event.additional == e0.additional,
                        event.authoritative == z.kind.spec_is_authoritative(),
                        event.query == e0.query,
                        event.prevent_default == e0.prevent_default,
                        event.request_authority == e0.request_authority,
                    decreases z.sets@.len() - i,
                {
                    push_owned(&mut event.answers, &name, &z.sets[i].records);
                    proof {
                        assert(z.sets@.take(i + 1).drop_last() =~= z.sets@.take(i as int));
                        assert(entries(event.answers@) =~= entries(e0.answers@) + all_sets(z.sets@.take(i + 1), name@));
                    }
                    i = i + 1;
                }
                proof {
                    assert(z.sets@.take(i as int) =~= z.sets@);
                    assert(entries(event.authority@) =~= entries(e0.authority@) + Seq::<Named>::empty());
                    assert(entries(event.additional@) =~= entries(e0.additional@) + Seq::<Named>::empty());
                }
                Ok(())
            } else {
                let h = rfc8482_hinfo();
                event.add_answer(name.as_str(), h);
                proof {
                    assert(entries(event.answers@).drop_last() =~= entries(e0.answers@));
                    let last = event.answers@.len() - 1;
                    assert(entries(event.answers@)[last] == (name@, h));
                    assert(event.answers@.last() == event.answers@[last]);
                    assert(event.answers@[last].0@ == name@);
                    assert(event.answers@[last].1 == h);
                    assert(event.answers@.len() == e0.answers@.len() + 1);
                }
                Ok(())
            }
        },
    }
}

} // verus!
