//! Properties of resolution and zone transfer that hold for every zone tree.
use vstd::prelude::*;
use crate::record::{Record, RecordType, ResponseCode};
use crate::names::{labels_of, trim_dots, strip_labels, lemma_split_dots_nonempty, child_name};
use crate::zone::{ZoneTree, journal_sorted, Txn};
use crate::resolve::{Named, resolve_spec, capped, owned, is_zone_cut};
use crate::transfer::{
    axfr_answers, axfr_spec, collect, collect_children, delegated, delta, deltas_from, ixfr_spec,
    journal_has, own_records, replay, serial_of, transfer_apex,
};
use crate::MAX_CNAME_CHAIN_SIZE;

verus! {

/// A name has a node exactly when the deepest match covers all its labels.
pub proof fn lemma_exact_deepest(tree: ZoneTree, name: Seq<char>)
    requires
        tree.wf(),
    ensures
        tree.exact(name) matches Some(n) ==> tree.deepest(name) == Some((n, labels_of(name).len())),
        tree.deepest(name) matches Some((n, k)) ==> (k == labels_of(name).len() <==> tree.exact(name)
            == Some(n)),
        tree.deepest(name) matches Some((n, k)) ==> 0 <= n < tree.nodes@.len() && k <= labels_of(name).len(),
{
    let labels = labels_of(name);
    lemma_split_dots_nonempty(trim_dots(name));
    tree.lemma_matched(labels, 0);
    let m = tree.matched(labels, 0);
    tree.lemma_follow_valid(labels, m);
    if tree.exact(name) is Some {
        if m < labels.len() {
            tree.lemma_follow_prefix(labels, m + 1, labels.len());
        }
    }
    if m < labels.len() && tree.follow(labels, labels.len()) is Some {
        tree.lemma_follow_prefix(labels, m + 1, labels.len());
    }
}

/// The CNAME record at `name` and its target, when `name` has a node with
/// a CNAME record.
pub open spec fn hop(tree: ZoneTree, name: Seq<char>) -> Option<(Record, Seq<char>)> {
    match tree.exact(name) {
        Some(n) => if tree.nodes@[n].spec_has(RecordType::CName) {
            let c = tree.nodes@[n].spec_records(RecordType::CName)[0];
            Some((c, c.spec_cname_target()))
        } else {
            None
        },
        None => None,
    }
}

/// `name` starts a chain of at least `k` CNAME records.
pub open spec fn has_chain(tree: ZoneTree, name: Seq<char>, k: nat) -> bool
    decreases k,
{
    k == 0 || match hop(tree, name) {
        Some((c, target)) => has_chain(tree, target, (k - 1) as nat),
        None => false,
    }
}

/// The name reached after following `k` CNAME records from `name`.
pub open spec fn chain_end(tree: ZoneTree, name: Seq<char>, k: nat) -> Seq<char>
    decreases k,
{
    if k == 0 {
        name
    } else {
        match hop(tree, name) {
            Some((c, target)) => chain_end(tree, target, (k - 1) as nat),
            None => name,
        }
    }
}

/// The first `k` CNAME records of the chain from `name`, each owned by the
/// name it was found at.
pub open spec fn chain_entries(tree: ZoneTree, name: Seq<char>, k: nat) -> Seq<Named>
    decreases k,
{
    if k == 0 {
        Seq::empty()
    } else {
        match hop(tree, name) {
            Some((c, target)) => seq![(name, c)] + chain_entries(tree, target, (k - 1) as nat),
            None => Seq::empty(),
        }
    }
}

/// Without a CNAME record at `name`, the number of hops already taken does
/// not matter.
pub proof fn lemma_no_hop_resolve(tree: ZoneTree, name: Seq<char>, t: RecordType, h1: nat, h2: nat)
    requires
        tree.wf(),
        hop(tree, name) is None,
    ensures
        resolve_spec(tree, name, t, h1) == resolve_spec(tree, name, t, h2),
{
    lemma_exact_deepest(tree, name);
}

proof fn lemma_chain_resolves(tree: ZoneTree, name: Seq<char>, t: RecordType, h: nat, k: nat)
    requires
        tree.wf(),
        h + k <= MAX_CNAME_CHAIN_SIZE,
        has_chain(tree, name, k),
        hop(tree, chain_end(tree, name, k)) is None,
    ensures
        resolve_spec(tree, name, t, h).answers == chain_entries(tree, name, k) + resolve_spec(
            tree,
            chain_end(tree, name, k),
            t,
            0,
        ).answers,
        resolve_spec(tree, name, t, h).authority == resolve_spec(tree, chain_end(tree, name, k), t, 0).authority,
        resolve_spec(tree, name, t, h).additional == resolve_spec(tree, chain_end(tree, name, k), t, 0).additional,
        resolve_spec(tree, name, t, h).result == resolve_spec(tree, chain_end(tree, name, k), t, 0).result,
    decreases k,
{
    lemma_exact_deepest(tree, name);
    if k == 0 {
        lemma_no_hop_resolve(tree, name, t, h, 0);
        assert(Seq::<Named>::empty() + resolve_spec(tree, name, t, 0).answers =~= resolve_spec(tree, name, t, 0).answers);
    } else {
        let (c, target) = hop(tree, name).unwrap();
        lemma_chain_resolves(tree, target, t, h + 1, (k - 1) as nat);
        let rest = resolve_spec(tree, target, t, h + 1);
        assert(resolve_spec(tree, name, t, h).answers == seq![(name, c)] + rest.answers);
        assert(seq![(name, c)] + (chain_entries(tree, target, (k - 1) as nat) + resolve_spec(
            tree,
            chain_end(tree, name, k),
            t,
            0,
        ).answers) =~= (seq![(name, c)] + chain_entries(tree, target, (k - 1) as nat)) + resolve_spec(
            tree,
            chain_end(tree, name, k),
            t,
            0,
        ).answers);
    }
}

proof fn lemma_chain_too_long(tree: ZoneTree, name: Seq<char>, t: RecordType, h: nat, k: nat)
    requires
        tree.wf(),
        h + k == MAX_CNAME_CHAIN_SIZE,
        has_chain(tree, name, k + 1),
    ensures
        resolve_spec(tree, name, t, h).answers == chain_entries(tree, name, k),
        resolve_spec(tree, name, t, h).authority.len() == 0,
        resolve_spec(tree, name, t, h).additional.len() == 0,
        resolve_spec(tree, name, t, h).result == Err::<(), ResponseCode>(ResponseCode::ServFail),
    decreases k,
{
    lemma_exact_deepest(tree, name);
    if k > 0 {
        let (c, target) = hop(tree, name).unwrap();
        lemma_chain_too_long(tree, target, t, h + 1, (k - 1) as nat);
    }
}

/// A chain of at most `MAX_CNAME_CHAIN_SIZE` CNAME records resolves to the
/// answer for the name it ends at, after the chain's CNAME records; a longer
/// chain gives SERVFAIL with only the first `MAX_CNAME_CHAIN_SIZE` CNAME
/// records as answers.
pub proof fn lemma_cname_chain(tree: ZoneTree, name: Seq<char>, t: RecordType, k: nat)
    requires
        tree.wf(),
        has_chain(tree, name, k),
    ensures
        k <= MAX_CNAME_CHAIN_SIZE && hop(tree, chain_end(tree, name, k)) is None ==> {
            let last = resolve_spec(tree, chain_end(tree, name, k), t, 0);
            let r = resolve_spec(tree, name, t, 0);
            &&& r.answers == chain_entries(tree, name, k) + last.answers
            &&& r.authority == last.authority
            &&& r.additional == last.additional
            &&& r.result == last.result
        },
        k > MAX_CNAME_CHAIN_SIZE ==> {
            let r = resolve_spec(tree, name, t, 0);
            &&& r.answers == chain_entries(tree, name, MAX_CNAME_CHAIN_SIZE as nat)
            &&& r.authority.len() == 0
            &&& r.additional.len() == 0
            &&& r.result == Err::<(), ResponseCode>(ResponseCode::ServFail)
        },
{
    if k <= MAX_CNAME_CHAIN_SIZE && hop(tree, chain_end(tree, name, k)) is None {
        lemma_chain_resolves(tree, name, t, 0, k);
    }
    if k > MAX_CNAME_CHAIN_SIZE {
        lemma_has_chain_shorter(tree, name, k, (MAX_CNAME_CHAIN_SIZE + 1) as nat);
        lemma_chain_too_long(tree, name, t, 0, MAX_CNAME_CHAIN_SIZE as nat);
    }
}

pub proof fn lemma_has_chain_shorter(tree: ZoneTree, name: Seq<char>, k: nat, j: nat)
    requires
        j <= k,
        has_chain(tree, name, k),
    ensures
        has_chain(tree, name, j),
    decreases j,
{
    if j > 0 {
        let (c, target) = hop(tree, name).unwrap();
        lemma_has_chain_shorter(tree, target, (k - 1) as nat, (j - 1) as nat);
    }
}

/// A name with records of type `t` and no CNAME record is answered with
/// those records in insertion order, at most `MAX_ANSWERS` of them, and
/// nothing else in the answer section.
pub proof fn lemma_direct_answer(tree: ZoneTree, name: Seq<char>, t: RecordType)
    requires
        tree.wf(),
        tree.records_at(name, t).len() > 0,
        tree.records_at(name, RecordType::CName).len() == 0,
    ensures
        resolve_spec(tree, name, t, 0).answers == owned(name, capped(tree.records_at(name, t))),
        resolve_spec(tree, name, t, 0).result == Ok::<(), ResponseCode>(()),
        resolve_spec(tree, name, t, 0).authority.len() == 0,
{
    lemma_exact_deepest(tree, name);
}

/// A name that no zone encloses is refused. A name without a node under a
/// zone with an SOA, where the deepest enclosing node is no delegation point
/// (a node with NS records and no SOA, whose names belong to another zone), gets
/// NXDOMAIN and exactly one authority record: the SOA of the nearest
/// enclosing zone, owned by that zone's name.
pub proof fn lemma_negative(tree: ZoneTree, name: Seq<char>, t: RecordType)
    requires
        tree.wf(),
    ensures
        tree.deepest(name) is None && tree.deepest_with(name, RecordType::Soa) is None ==> resolve_spec(
            tree,
            name,
            t,
            0,
        ).result == Err::<(), ResponseCode>(ResponseCode::Refused),
        tree.exact(name) is None && (tree.deepest(name) matches Some((n, k)) ==> !is_zone_cut(
            tree.nodes@[n],
        )) ==> match tree.deepest_with(name, RecordType::Soa) {
            Some((z, k)) => {
                let r = resolve_spec(tree, name, t, 0);
                &&& r.result == Err::<(), ResponseCode>(ResponseCode::NxDomain)
                &&& r.answers.len() == 0
                &&& r.authority == seq![
                    (
                        strip_labels(name, (labels_of(name).len() - k) as nat),
                        tree.nodes@[z].spec_records(RecordType::Soa)[0],
                    ),
                ]
            },
            None => resolve_spec(tree, name, t, 0).result == Err::<(), ResponseCode>(ResponseCode::Refused),
        },
{
    lemma_exact_deepest(tree, name);
}

proof fn lemma_in_left(a: Seq<Named>, b: Seq<Named>, x: Named)
    requires
        a.contains(x),
    ensures
        (a + b).contains(x),
{
    let i = choose|i: int| 0 <= i < a.len() && a[i] == x;
    assert((a + b)[i] == x);
}

proof fn lemma_in_right(a: Seq<Named>, b: Seq<Named>, x: Named)
    requires
        b.contains(x),
    ensures
        (a + b).contains(x),
{
    let i = choose|i: int| 0 <= i < b.len() && b[i] == x;
    assert((a + b)[a.len() + i] == x);
}

/// The node reached from node `n` by taking, at each step, the child at the
/// given position, as long as that child is no delegation boundary.
pub open spec fn reach(tree: ZoneTree, n: int, path: Seq<int>) -> Option<int>
    decreases path.len(),
{
    if path.len() == 0 {
        Some(n)
    } else if 0 <= n < tree.nodes@.len() && 0 <= path[0] < tree.nodes@[n].children@.len() {
        let c = tree.nodes@[n].children@[path[0]].1 as int;
        if n < c < tree.nodes@.len() && !delegated(tree, c) {
            reach(tree, c, path.drop_first())
        } else {
            None
        }
    } else {
        None
    }
}

/// The owner name of the node reached along `path` from a node named
/// `owner`.
pub open spec fn reach_owner(tree: ZoneTree, n: int, path: Seq<int>, owner: Seq<char>) -> Seq<char>
    decreases path.len(),
{
    if path.len() == 0 {
        owner
    } else if 0 <= n < tree.nodes@.len() && 0 <= path[0] < tree.nodes@[n].children@.len() {
        let (label, c) = tree.nodes@[n].children@[path[0]];
        reach_owner(tree, c as int, path.drop_first(), child_name(owner, label@))
    } else {
        owner
    }
}

proof fn lemma_own_records_contains(sets: Seq<crate::zone::RecordSet>, owner: Seq<char>, s: int, i: int)
    requires
        0 <= s < sets.len(),
        sets[s].rtype != RecordType::Soa,
        0 <= i < sets[s].records@.len(),
    ensures
        own_records(sets, owner).contains((owner, sets[s].records@[i])),
    decreases sets.len(),
{
    let x = (owner, sets[s].records@[i]);
    if s == sets.len() - 1 {
        assert(owned(owner, sets.last().records@)[i] == x);
        lemma_in_right(own_records(sets.drop_last(), owner), owned(owner, sets.last().records@), x);
    } else {
        lemma_own_records_contains(sets.drop_last(), owner, s, i);
        let tail = if sets.last().rtype == RecordType::Soa {
            Seq::<Named>::empty()
        } else {
            owned(owner, sets.last().records@)
        };
        lemma_in_left(own_records(sets.drop_last(), owner), tail, x);
    }
}

proof fn lemma_children_contains(tree: ZoneTree, n: int, i: nat, owner: Seq<char>, j: int, x: Named)
    requires
        0 <= n < tree.nodes@.len(),
        i <= tree.nodes@[n].children@.len(),
        0 <= j < i,
        n < tree.nodes@[n].children@[j].1 < tree.nodes@.len(),
        !delegated(tree, tree.nodes@[n].children@[j].1 as int),
        collect(
            tree,
            tree.nodes@[n].children@[j].1 as int,
            child_name(owner, tree.nodes@[n].children@[j].0@),
        ).contains(x),
    ensures
        collect_children(tree, n, i, owner).contains(x),
    decreases i,
{
    let (label, c) = tree.nodes@[n].children@[i - 1];
    let tail = if n < c < tree.nodes@.len() && !delegated(tree, c as int) {
        collect(tree, c as int, child_name(owner, label@))
    } else {
        Seq::empty()
    };
    if j == i - 1 {
        lemma_in_right(collect_children(tree, n, (i - 1) as nat, owner), tail, x);
    } else {
        lemma_children_contains(tree, n, (i - 1) as nat, owner, j, x);
        lemma_in_left(collect_children(tree, n, (i - 1) as nat, owner), tail, x);
    }
}

proof fn lemma_collect_contains(tree: ZoneTree, n: int, path: Seq<int>, owner: Seq<char>, s: int, i: int)
    requires
        tree.wf(),
        0 <= n < tree.nodes@.len(),
        reach(tree, n, path) matches Some(m) && 0 <= s < tree.nodes@[m].sets@.len()
            && tree.nodes@[m].sets@[s].rtype != RecordType::Soa && 0 <= i
            < tree.nodes@[m].sets@[s].records@.len(),
    ensures
        collect(tree, n, owner).contains(
            (
                reach_owner(tree, n, path, owner),
                tree.nodes@[reach(tree, n, path).unwrap()].sets@[s].records@[i],
            ),
        ),
    decreases path.len(),
{
    let m = reach(tree, n, path).unwrap();
    let x = (reach_owner(tree, n, path, owner), tree.nodes@[m].sets@[s].records@[i]);
    let own = own_records(tree.nodes@[n].sets@, owner);
    let kids = collect_children(tree, n, tree.nodes@[n].children@.len() as nat, owner);
    if path.len() == 0 {
        lemma_own_records_contains(tree.nodes@[n].sets@, owner, s, i);
        lemma_in_left(own, kids, x);
    } else {
        let j = path[0];
        let (label, c) = tree.nodes@[n].children@[j];
        lemma_collect_contains(tree, c as int, path.drop_first(), child_name(owner, label@), s, i);
        lemma_children_contains(tree, n, tree.nodes@[n].children@.len() as nat, owner, j, x);
        lemma_in_right(own, kids, x);
    }
}

proof fn lemma_in_concat(a: Seq<Named>, b: Seq<Named>, x: Named)
    requires
        (a + b).contains(x),
    ensures
        a.contains(x) || b.contains(x),
{
    let k = choose|k: int| 0 <= k < (a + b).len() && (a + b)[k] == x;
    if k < a.len() {
        assert(a[k] == x);
    } else {
        assert(b[k - a.len()] == x);
    }
}

/// `x` is record `i` of set `s` of the node that `path` reaches from node
/// `n`, that set is no SOA set, and `x` is owned by that node's name.
pub open spec fn from_reached(
    tree: ZoneTree,
    n: int,
    owner: Seq<char>,
    x: Named,
    path: Seq<int>,
    s: int,
    i: int,
) -> bool {
    reach(tree, n, path) matches Some(m) && 0 <= m < tree.nodes@.len() && 0 <= s < tree.nodes@[m].sets@.len()
        && tree.nodes@[m].sets@[s].rtype != RecordType::Soa && 0 <= i < tree.nodes@[m].sets@[s].records@.len()
        && x == (reach_owner(tree, n, path, owner), tree.nodes@[m].sets@[s].records@[i])
}

proof fn lemma_own_records_from(sets: Seq<crate::zone::RecordSet>, owner: Seq<char>, x: Named)
    requires
        own_records(sets, owner).contains(x),
    ensures
        exists|s: int, i: int|
            0 <= s < sets.len() && sets[s].rtype != RecordType::Soa && 0 <= i < sets[s].records@.len() && x == (
                owner,
                #[trigger] sets[s].records@[i],
            ),
    decreases sets.len(),
{
    let tail = if sets.last().rtype == RecordType::Soa {
        Seq::<Named>::empty()
    } else {
        owned(owner, sets.last().records@)
    };
    lemma_in_concat(own_records(sets.drop_last(), owner), tail, x);
    if own_records(sets.drop_last(), owner).contains(x) {
        lemma_own_records_from(sets.drop_last(), owner, x);
        let (s, i) = choose|s: int, i: int|
            0 <= s < sets.drop_last().len() && sets.drop_last()[s].rtype != RecordType::Soa && 0 <= i
                < sets.drop_last()[s].records@.len() && x == (owner, #[trigger] sets.drop_last()[s].records@[i]);
        assert(sets[s] == sets.drop_last()[s]);
    } else {
        let i = choose|i: int| 0 <= i < tail.len() && tail[i] == x;
        assert(x == (owner, sets[sets.len() - 1].records@[i]));
    }
}

proof fn lemma_children_from(tree: ZoneTree, n: int, k: nat, owner: Seq<char>, x: Named)
    requires
        collect_children(tree, n, k, owner).contains(x),
    ensures
        exists|j: int|
            0 <= j < k && 0 <= n < tree.nodes@.len() && k <= tree.nodes@[n].children@.len() && n
                < #[trigger] tree.nodes@[n].children@[j].1 < tree.nodes@.len() && !delegated(
                tree,
                tree.nodes@[n].children@[j].1 as int,
            ) && collect(
                tree,
                tree.nodes@[n].children@[j].1 as int,
                child_name(owner, tree.nodes@[n].children@[j].0@),
            ).contains(x),
    decreases k,
{
    let (label, c) = tree.nodes@[n].children@[k - 1];
    let tail = if n < c < tree.nodes@.len() && !delegated(tree, c as int) {
        collect(tree, c as int, child_name(owner, label@))
    } else {
        Seq::<Named>::empty()
    };
    lemma_in_concat(collect_children(tree, n, (k - 1) as nat, owner), tail, x);
    if collect_children(tree, n, (k - 1) as nat, owner).contains(x) {
        lemma_children_from(tree, n, (k - 1) as nat, owner, x);
    } else {
        assert(tree.nodes@[n].children@[k - 1].1 == c);
    }
}

proof fn lemma_collect_from(tree: ZoneTree, n: int, owner: Seq<char>, x: Named)
    requires
        0 <= n < tree.nodes@.len(),
        collect(tree, n, owner).contains(x),
    ensures
        exists|path: Seq<int>, s: int, i: int| #[trigger] from_reached(tree, n, owner, x, path, s, i),
    decreases tree.nodes@.len() - n,
{
    let own = own_records(tree.nodes@[n].sets@, owner);
    let kids = collect_children(tree, n, tree.nodes@[n].children@.len() as nat, owner);
    lemma_in_concat(own, kids, x);
    if own.contains(x) {
        lemma_own_records_from(tree.nodes@[n].sets@, owner, x);
        let (s, i) = choose|s: int, i: int|
            0 <= s < tree.nodes@[n].sets@.len() && tree.nodes@[n].sets@[s].rtype != RecordType::Soa && 0 <= i
                < tree.nodes@[n].sets@[s].records@.len() && x == (owner, #[trigger] tree.nodes@[n].sets@[s].records@[i]);
        assert(from_reached(tree, n, owner, x, Seq::empty(), s, i));
    } else {
        lemma_children_from(tree, n, tree.nodes@[n].children@.len() as nat, owner, x);
        let j = choose|j: int|
            0 <= j < tree.nodes@[n].children@.len() && n < #[trigger] tree.nodes@[n].children@[j].1
                < tree.nodes@.len() && !delegated(tree, tree.nodes@[n].children@[j].1 as int) && collect(
                tree,
                tree.nodes@[n].children@[j].1 as int,
                child_name(owner, tree.nodes@[n].children@[j].0@),
            ).contains(x);
        let (label, c) = tree.nodes@[n].children@[j];
        let cowner = child_name(owner, label@);
        lemma_collect_from(tree, c as int, cowner, x);
        let (p, s, i) = choose|p: Seq<int>, s: int, i: int| #[trigger] from_reached(tree, c as int, cowner, x, p, s, i);
        let path = seq![j] + p;
        assert(path.drop_first() =~= p);
        assert(path[0] == j);
        assert(reach(tree, n, path) == reach(tree, c as int, p));
        assert(reach_owner(tree, n, path, owner) == reach_owner(tree, c as int, p, cowner));
        assert(from_reached(tree, n, owner, x, path, s, i));
    }
}

/// Between its framing SOA records, an AXFR answer holds exactly the records
/// of the nodes that the zone reaches without crossing a delegation
/// boundary, their SOA records aside, each owned by its node's name.
pub proof fn lemma_axfr_exact(tree: ZoneTree, name: Seq<char>, x: Named)
    requires
        tree.wf(),
        transfer_apex(tree, name) is Some,
    ensures
        ({
            let (n, apex, soa) = transfer_apex(tree, name).unwrap();
            let a = axfr_spec(tree, name).answers;
            a.subrange(1, a.len() - 1).contains(x) <==> exists|path: Seq<int>, s: int, i: int|
                #[trigger] from_reached(tree, n, apex, x, path, s, i)
        }),
{
    let (n, apex, soa) = transfer_apex(tree, name).unwrap();
    lemma_exact_deepest(tree, name);
    let a = axfr_answers(tree, n, apex, soa);
    assert(a.subrange(1, a.len() - 1) =~= collect(tree, n, apex));
    if collect(tree, n, apex).contains(x) {
        lemma_collect_from(tree, n, apex, x);
    }
    if exists|path: Seq<int>, s: int, i: int| #[trigger] from_reached(tree, n, apex, x, path, s, i) {
        let (path, s, i) = choose|path: Seq<int>, s: int, i: int| #[trigger] from_reached(tree, n, apex, x, path, s, i);
        lemma_collect_contains(tree, n, path, apex, s, i);
    }
}

/// An AXFR answer starts and ends with the zone's SOA record, and between
/// them holds every record of every node that the zone reaches without
/// crossing a delegation boundary, its SOA records aside, each owned by the
/// name of its node.
pub proof fn lemma_axfr_complete(tree: ZoneTree, name: Seq<char>, path: Seq<int>, s: int, i: int)
    requires
        tree.wf(),
        transfer_apex(tree, name) matches Some((n, apex, soa)) && (reach(tree, n, path) matches Some(m)
            && 0 <= s < tree.nodes@[m].sets@.len() && tree.nodes@[m].sets@[s].rtype != RecordType::Soa
            && 0 <= i < tree.nodes@[m].sets@[s].records@.len()),
    ensures
        ({
            let (n, apex, soa) = transfer_apex(tree, name).unwrap();
            let a = axfr_spec(tree, name).answers;
            let m = reach(tree, n, path).unwrap();
            &&& axfr_spec(tree, name).result == Ok::<(), ResponseCode>(())
            &&& a[0] == (apex, soa)
            &&& a[a.len() - 1] == (apex, soa)
            &&& a.subrange(1, a.len() - 1).contains(
                (reach_owner(tree, n, path, apex), tree.nodes@[m].sets@[s].records@[i]),
            )
        }),
{
    let (n, apex, soa) = transfer_apex(tree, name).unwrap();
    lemma_exact_deepest(tree, name);
    lemma_collect_contains(tree, n, path, apex, s, i);
    let a = axfr_answers(tree, n, apex, soa);
    assert(a.subrange(1, a.len() - 1) =~= collect(tree, n, apex));
}

proof fn lemma_deltas_all(txns: Seq<Txn>, apex: Seq<char>, soa: Record, from: u32)
    requires
        forall|i: int| 0 <= i < txns.len() ==> (#[trigger] txns[i]).serial_from >= from,
    ensures
        deltas_from(txns, apex, soa, from) == replay(txns, apex, soa),
    decreases txns.len(),
{
    if txns.len() > 0 {
        assert forall|i: int| 0 <= i < txns.drop_last().len() implies (#[trigger] txns.drop_last()[i]).serial_from
            >= from by {
            assert(txns.drop_last()[i] == txns[i]);
        }
        lemma_deltas_all(txns.drop_last(), apex, soa, from);
        assert(txns.last() == txns[txns.len() - 1]);
    }
}

/// IXFR from the journal's earliest serial sends every transaction of the
/// journal in order, each as its deletions then its additions, framed by
/// the current SOA. IXFR from a serial the journal does not hold, or
/// without a client serial, sends the same as AXFR.
pub proof fn lemma_ixfr(tree: ZoneTree, name: Seq<char>, s: u32)
    requires
        tree.wf(),
        transfer_apex(tree, name) is Some,
    ensures
        ({
            let (n, apex, soa) = transfer_apex(tree, name).unwrap();
            let j = tree.nodes@[n].journal@;
            &&& journal_sorted(j) && j.len() > 0 && s == j[0].serial_from && s < serial_of(soa) ==> ixfr_spec(
                tree,
                name,
                Some(s),
            ).answers == seq![(apex, soa)] + replay(j, apex, soa) + seq![(apex, soa)]
            &&& !journal_has(j, s) && s < serial_of(soa) ==> ixfr_spec(tree, name, Some(s)).answers
                == axfr_spec(tree, name).answers
            &&& ixfr_spec(tree, name, None).answers == axfr_spec(tree, name).answers
        }),
{
    let (n, apex, soa) = transfer_apex(tree, name).unwrap();
    let j = tree.nodes@[n].journal@;
    if journal_sorted(j) && j.len() > 0 && s == j[0].serial_from && s < serial_of(soa) {
        assert forall|i: int| 0 <= i < j.len() implies (#[trigger] j[i]).serial_from >= s by {
            if i > 0 {
                assert(j[0].serial_from < j[i].serial_from);
            }
        }
        lemma_deltas_all(j, apex, soa, s);
        assert(journal_has(j, s));
    }
}

/// One entry of an IXFR body applied to a record state: an SOA record
/// switches between deleting and adding; any other entry is deleted from the
/// state (its first occurrence) or appended to it.
pub open spec fn ixfr_step(state: Seq<Named>, x: Named, adding: bool) -> (Seq<Named>, bool) {
    if x.1.spec_type() == RecordType::Soa {
        (state, !adding)
    } else if adding {
        (state.push(x), adding)
    } else {
        (state.remove_value(x), adding)
    }
}

/// An IXFR body applied entry by entry, as a secondary applies it.
pub open spec fn ixfr_apply(state: Seq<Named>, body: Seq<Named>, adding: bool) -> (Seq<Named>, bool)
    decreases body.len(),
{
    if body.len() == 0 {
        (state, adding)
    } else {
        let (s2, a2) = ixfr_step(state, body[0], adding);
        ixfr_apply(s2, body.drop_first(), a2)
    }
}

/// The state with each entry of `dels` removed in turn.
pub open spec fn remove_all(state: Seq<Named>, dels: Seq<Named>) -> Seq<Named>
    decreases dels.len(),
{
    if dels.len() == 0 {
        state
    } else {
        remove_all(state.remove_value(dels[0]), dels.drop_first())
    }
}

/// One transaction applied to a record state: its deletions, then its
/// additions.
pub open spec fn apply_txn(state: Seq<Named>, t: Txn) -> Seq<Named> {
    remove_all(state, crate::event::entries(t.deleted@)) + crate::event::entries(t.added@)
}

/// The transactions applied in order.
pub open spec fn apply_txns(state: Seq<Named>, txns: Seq<Txn>) -> Seq<Named>
    decreases txns.len(),
{
    if txns.len() == 0 {
        state
    } else {
        apply_txn(apply_txns(state, txns.drop_last()), txns.last())
    }
}

/// No entry holds an SOA record.
pub open spec fn no_soa(v: Seq<Named>) -> bool {
    forall|i: int| 0 <= i < v.len() ==> (#[trigger] v[i]).1.spec_type() != RecordType::Soa
}

/// The transactions carry no SOA records; the serial change is their frame.
pub open spec fn txns_without_soa(txns: Seq<Txn>) -> bool {
    forall|i: int|
        0 <= i < txns.len() ==> no_soa(crate::event::entries((#[trigger] txns[i]).deleted@)) && no_soa(
            crate::event::entries(txns[i].added@),
        )
}

proof fn lemma_apply_concat(state: Seq<Named>, a: Seq<Named>, b: Seq<Named>, adding: bool)
    ensures
        ixfr_apply(state, a + b, adding) == ({
            let (s1, a1) = ixfr_apply(state, a, adding);
            ixfr_apply(s1, b, a1)
        }),
    decreases a.len(),
{
    if a.len() == 0 {
        assert(a + b =~= b);
    } else {
        assert((a + b)[0] == a[0]);
        assert((a + b).drop_first() =~= a.drop_first() + b);
        let (s2, a2) = ixfr_step(state, a[0], adding);
        lemma_apply_concat(s2, a.drop_first(), b, a2);
    }
}

proof fn lemma_apply_deletions(state: Seq<Named>, dels: Seq<Named>)
    requires
        no_soa(dels),
    ensures
        ixfr_apply(state, dels, false) == (remove_all(state, dels), false),
    decreases dels.len(),
{
    if dels.len() > 0 {
        assert(dels[0] == dels[0]);
        assert(no_soa(dels.drop_first())) by {
            assert forall|i: int| 0 <= i < dels.drop_first().len() implies (#[trigger] dels.drop_first()[i]).1.spec_type()
                != RecordType::Soa by {
                assert(dels.drop_first()[i] == dels[i + 1]);
            }
        }
        lemma_apply_deletions(state.remove_value(dels[0]), dels.drop_first());
    }
}

proof fn lemma_apply_additions(state: Seq<Named>, adds: Seq<Named>)
    requires
        no_soa(adds),
    ensures
        ixfr_apply(state, adds, true) == (state + adds, true),
    decreases adds.len(),
{
    if adds.len() > 0 {
        assert(adds[0] == adds[0]);
        assert(no_soa(adds.drop_first())) by {
            assert forall|i: int| 0 <= i < adds.drop_first().len() implies (#[trigger] adds.drop_first()[i]).1.spec_type()
                != RecordType::Soa by {
                assert(adds.drop_first()[i] == adds[i + 1]);
            }
        }
        lemma_apply_additions(state.push(adds[0]), adds.drop_first());
        assert(state.push(adds[0]) + adds.drop_first() =~= state + adds);
    }
}

proof fn lemma_apply_delta(state: Seq<Named>, t: Txn, apex: Seq<char>, soa: Record)
    requires
        soa.spec_type() == RecordType::Soa,
        no_soa(crate::event::entries(t.deleted@)),
        no_soa(crate::event::entries(t.added@)),
    ensures
        ixfr_apply(state, delta(t, apex, soa), true) == (apply_txn(state, t), true),
{
    let s1: Seq<Named> = seq![(apex, soa.spec_with_serial(t.serial_from))];
    let d = crate::event::entries(t.deleted@);
    let s2: Seq<Named> = seq![(apex, soa.spec_with_serial(t.serial_to))];
    let a = crate::event::entries(t.added@);
    assert(delta(t, apex, soa) == s1 + d + s2 + a);
    lemma_apply_concat(state, s1 + d + s2, a, true);
    lemma_apply_concat(state, s1 + d, s2, true);
    lemma_apply_concat(state, s1, d, true);
    assert(s1[0].1.spec_type() == RecordType::Soa);
    assert(s1.drop_first() =~= Seq::<Named>::empty());
    assert(ixfr_apply(state, s1.drop_first(), false) == (state, false));
    assert(ixfr_step(state, s1[0], true) == (state, false));
    assert(ixfr_apply(state, s1, true) == (state, false));
    lemma_apply_deletions(state, d);
    let r = remove_all(state, d);
    assert(s2[0].1.spec_type() == RecordType::Soa);
    assert(s2.drop_first() =~= Seq::<Named>::empty());
    assert(ixfr_apply(r, s2.drop_first(), true) == (r, true));
    assert(ixfr_step(r, s2[0], false) == (r, true));
    assert(ixfr_apply(r, s2, false) == (r, true));
    lemma_apply_additions(r, a);
}

proof fn lemma_apply_replay(state: Seq<Named>, txns: Seq<Txn>, apex: Seq<char>, soa: Record)
    requires
        soa.spec_type() == RecordType::Soa,
        txns_without_soa(txns),
    ensures
        ixfr_apply(state, replay(txns, apex, soa), true) == (apply_txns(state, txns), true),
    decreases txns.len(),
{
    if txns.len() > 0 {
        assert(txns_without_soa(txns.drop_last())) by {
            assert forall|i: int| 0 <= i < txns.drop_last().len() implies no_soa(
                crate::event::entries((#[trigger] txns.drop_last()[i]).deleted@),
            ) && no_soa(crate::event::entries(txns.drop_last()[i].added@)) by {
                assert(txns.drop_last()[i] == txns[i]);
            }
        }
        lemma_apply_replay(state, txns.drop_last(), apex, soa);
        lemma_apply_concat(state, replay(txns.drop_last(), apex, soa), delta(txns.last(), apex, soa), true);
        assert(txns.last() == txns[txns.len() - 1]);
        lemma_apply_delta(apply_txns(state, txns.drop_last()), txns.last(), apex, soa);
    }
}

/// IXFR from the journal's earliest serial brings a secondary to the same
/// record state as applying every transaction of the journal in order,
/// deletions before additions, whatever state it starts from.
pub proof fn lemma_ixfr_reproduces_state(tree: ZoneTree, name: Seq<char>, s: u32, state: Seq<Named>)
    requires
        tree.wf(),
        tree.typed(),
        transfer_apex(tree, name) matches Some((n, apex, soa)) && ({
            let j = tree.nodes@[n].journal@;
            journal_sorted(j) && j.len() > 0 && s == j[0].serial_from && s < serial_of(soa) && txns_without_soa(j)
        }),
    ensures
        ({
            let (n, apex, soa) = transfer_apex(tree, name).unwrap();
            let a = ixfr_spec(tree, name, Some(s)).answers;
            &&& a[0] == (apex, soa)
            &&& a[a.len() - 1] == (apex, soa)
            &&& ixfr_apply(state, a.subrange(1, a.len() - 1), true).0 == apply_txns(state, tree.nodes@[n].journal@)
        }),
{
    let (n, apex, soa) = transfer_apex(tree, name).unwrap();
    let j = tree.nodes@[n].journal@;
    lemma_exact_deepest(tree, name);
    crate::zone::lemma_find_set_range(tree.nodes@[n].sets@, RecordType::Soa);
    assert(tree.nodes@[n].typed());
    let si = crate::zone::find_set(tree.nodes@[n].sets@, RecordType::Soa).unwrap();
    assert(tree.nodes@[n].sets@[si].records@[0] == soa);
    lemma_ixfr(tree, name, s);
    let a = ixfr_spec(tree, name, Some(s)).answers;
    assert(a == seq![(apex, soa)] + replay(j, apex, soa) + seq![(apex, soa)]);
    assert(a.subrange(1, a.len() - 1) =~= replay(j, apex, soa));
    lemma_apply_replay(state, j, apex, soa);
}

} // verus!
