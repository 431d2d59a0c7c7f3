//! The zone tree: one node per domain label, each holding its record sets,
//! its children and a serial-ordered change journal. Nodes live in one
//! vector; the root is node 0 and every child stands after its parent.
use vstd::prelude::*;
use crate::record::{Record, RecordType};
use crate::names::{labels_of, name_labels};

verus! {

/// How a server holds a zone; only master and slave zones are authoritative.
#[derive(PartialEq, Eq, Structural, Clone, Copy, Debug, Hash)]
pub enum ZoneKind {
    Master,
    Slave,
    Stub,
    Forward,
    Hint,
}

impl ZoneKind {
    pub open spec fn spec_is_authoritative(self) -> bool {
        self == ZoneKind::Master || self == ZoneKind::Slave
    }
}

/// The records of one type at one node, in insertion order.
#[derive(Debug)]
pub struct RecordSet {
    pub rtype: RecordType,
    pub records: Vec<Record>,
}

/// One zone-serial increment: the records deleted and added, by owner name.
#[derive(Debug)]
pub struct Txn {
    pub serial_from: u32,
    pub serial_to: u32,
    pub deleted: Vec<(String, Record)>,
    pub added: Vec<(String, Record)>,
}

/// One node of the zone tree.
#[derive(Debug)]
pub struct Zone {
    pub kind: ZoneKind,
    pub sets: Vec<RecordSet>,
    pub children: Vec<(String, usize)>,
    pub journal: Vec<Txn>,
}

/// The index of the last record set of type `t`.
pub open spec fn find_set(sets: Seq<RecordSet>, t: RecordType) -> Option<int>
    decreases sets.len(),
{
    if sets.len() == 0 {
        None
    } else if sets.last().rtype == t {
        Some(sets.len() - 1)
    } else {
        find_set(sets.drop_last(), t)
    }
}

/// The node that the last child entry labelled `label` points to.
pub open spec fn find_child(children: Seq<(String, usize)>, label: Seq<char>) -> Option<int>
    decreases children.len(),
{
    if children.len() == 0 {
        None
    } else if children.last().0@ == label {
        Some(children.last().1 as int)
    } else {
        find_child(children.drop_last(), label)
    }
}

pub proof fn lemma_find_set_range(sets: Seq<RecordSet>, t: RecordType)
    ensures
        find_set(sets, t) matches Some(i) ==> 0 <= i < sets.len() && sets[i].rtype == t,
    decreases sets.len(),
{
    if sets.len() > 0 {
        lemma_find_set_range(sets.drop_last(), t);
    }
}

/// Replacing the records of a set leaves every type's set where it was.
pub proof fn lemma_find_set_update(sets: Seq<RecordSet>, i: int, s: RecordSet, t: RecordType)
    requires
        0 <= i < sets.len(),
        s.rtype == sets[i].rtype,
    ensures
        find_set(sets.update(i, s), t) == find_set(sets, t),
    decreases sets.len(),
{
    let u = sets.update(i, s);
    if i < sets.len() - 1 {
        assert(u.drop_last() =~= sets.drop_last().update(i, s));
        lemma_find_set_update(sets.drop_last(), i, s, t);
    } else {
        assert(u.drop_last() =~= sets.drop_last());
    }
}

pub proof fn lemma_find_child_push(children: Seq<(String, usize)>, e: (String, usize), label: Seq<char>)
    ensures
        find_child(children.push(e), label) == if e.0@ == label {
            Some(e.1 as int)
        } else {
            find_child(children, label)
        },
{
    assert(children.push(e).drop_last() =~= children);
}

impl Zone {
    pub open spec fn spec_records(self, t: RecordType) -> Seq<Record> {
        match find_set(self.sets@, t) {
            Some(i) => self.sets@[i].records@,
            None => Seq::empty(),
        }
    }

    /// Every record set holds records of its own type only.
    pub open spec fn typed(self) -> bool {
        forall|s: int, j: int|
            0 <= s < self.sets@.len() && 0 <= j < self.sets@[s].records@.len() ==> (
            #[trigger] self.sets@[s].records@[j]).spec_type() == self.sets@[s].rtype
    }

    /// The node holds a non-empty record set of type `t`.
    pub open spec fn spec_has(self, t: RecordType) -> bool {
        self.spec_records(t).len() > 0
    }

    pub fn new(kind: ZoneKind) -> (r: Zone)
        ensures
            r.kind == kind,
            r.sets@.len() == 0,
            r.children@.len() == 0,
            r.journal@.len() == 0,
    {
        Zone { kind, sets: Vec::new(), children: Vec::new(), journal: Vec::new() }
    }

    pub fn set_type(&mut self, kind: ZoneKind)
        ensures
            final(self).kind == kind,
            final(self).sets == old(self).sets,
            final(self).children == old(self).children,
            final(self).journal == old(self).journal,
    {
        self.kind = kind;
    }

    pub fn get_type(&self) -> (r: ZoneKind)
        ensures
            r == self.kind,
    {
        self.kind
    }

    pub fn is_authority(&self) -> (r: bool)
        ensures
            r == self.kind.spec_is_authoritative(),
    {
        self.kind == ZoneKind::Master || self.kind == ZoneKind::Slave
    }

    fn set_index(&self, t: RecordType) -> (r: Option<usize>)
        ensures
            r matches Some(i) ==> find_set(self.sets@, t) == Some(i as int),
            r is None ==> find_set(self.sets@, t) is None,
    {
        let mut i: usize = self.sets.len();
        assert(self.sets@.subrange(0, i as int) =~= self.sets@);
        while i > 0
            invariant
                i <= self.sets@.len(),
                find_set(self.sets@, t) == find_set(self.sets@.subrange(0, i as int), t),
            decreases i,
        {
            let ghost pre = self.sets@.subrange(0, i as int);
            assert(pre.drop_last() =~= self.sets@.subrange(0, i - 1));
            if self.sets[i - 1].rtype == t {
                return Some(i - 1);
            }
            i = i - 1;
        }
        None
    }

    /// The records of type `t` at this node.
    pub fn get_records(&self, t: RecordType) -> (r: Option<&Vec<Record>>)
        ensures
            match r {
                Some(v) => v@ == self.spec_records(t),
                None => self.spec_records(t).len() == 0,
            },
    {
        proof {
            lemma_find_set_range(self.sets@, t);
        }
        match self.set_index(t) {
            Some(i) => Some(&self.sets[i].records),
            None => None,
        }
    }

    /// Appends a record to the set of its type, creating the set if needed.
    pub fn add_record(&mut self, record: Record)
        ensures
            forall|t: RecordType|
                #[trigger] final(self).spec_records(t) == if t == record.spec_type() {
                    old(self).spec_records(t).push(record)
                } else {
                    old(self).spec_records(t)
                },
            final(self).kind == old(self).kind,
            final(self).children == old(self).children,
            final(self).journal == old(self).journal,
            old(self).typed() ==> final(self).typed(),
    {
        let t = record.get_type();
        let ghost rec = record;
        let ghost before = *self;
        match self.set_index(t) {
            Some(i) => {
                proof {
                    lemma_find_set_range(self.sets@, t);
                }
                let ghost old_sets = self.sets@;
                let mut set = self.sets.remove(i);
                let ghost old_recs = set.records@;
                assert(old_recs == old(self).spec_records(t));
                set.records.push(record);
                assert(set.records@ == old_recs.push(record));
                self.sets.insert(i, set);
                assert(self.sets@ =~= old_sets.update(i as int, set));
                proof {
                    if before.typed() {
                        assert forall|s2: int, j: int|
                            0 <= s2 < self.sets@.len() && 0 <= j < self.sets@[s2].records@.len() implies (
                            #[trigger] self.sets@[s2].records@[j]).spec_type() == self.sets@[s2].rtype by {
                            if s2 != i {
                                assert(self.sets@[s2] == old_sets[s2]);
                            } else if j < old_recs.len() {
                                assert(self.sets@[s2].records@[j] == old_sets[s2].records@[j]);
                            }
                        }
                    }
                }
                assert forall|u: RecordType| #[trigger] self.spec_records(u) == if u == t {
                    before.spec_records(u).push(rec)
                } else {
                    before.spec_records(u)
                } by {
                    lemma_find_set_update(old_sets, i as int, set, u);
                    lemma_find_set_range(old_sets, u);
                    if u == t {
                        assert(self.spec_records(u) == set.records@);
                        assert(self.spec_records(u) == before.spec_records(u).push(rec));
                    } else {
                        match find_set(old_sets, u) {
                            Some(j) => {
                                assert(j != i);
                                assert(self.sets@[j] == old_sets[j]);
                            },
                            None => {},
                        }
                        assert(self.spec_records(u) == before.spec_records(u));
                    }
                }
            },
            None => {
                let ghost old_sets = self.sets@;
                let mut records: Vec<Record> = Vec::new();
                records.push(record);
                let ghost rs = records@;
                assert(rs =~= Seq::<Record>::empty().push(rec));
                self.sets.push(RecordSet { rtype: t, records });
                assert(self.sets@.drop_last() =~= old_sets);
                assert(self.sets@.last().records@ == rs);
                assert forall|u: RecordType| #[trigger] self.spec_records(u) == if u == t {
                    before.spec_records(u).push(rec)
                } else {
                    before.spec_records(u)
                } by {
                    lemma_find_set_range(old_sets, u);
                    if u == t {
                        assert(before.spec_records(u) =~= Seq::<Record>::empty());
                        assert(find_set(self.sets@, u) == Some(old_sets.len() as int));
                        assert(self.spec_records(u) == rs);
                        assert(before.spec_records(u).push(rec) =~= rs);
                    } else {
                        assert(find_set(self.sets@, u) == find_set(old_sets, u));
                        if let Some(j) = find_set(old_sets, u) {
                            assert(self.sets@[j] == old_sets[j]);
                        }
                    }
                }
                proof {
                    if before.typed() {
                        assert forall|s2: int, j: int|
                            0 <= s2 < self.sets@.len() && 0 <= j < self.sets@[s2].records@.len() implies (
                            #[trigger] self.sets@[s2].records@[j]).spec_type() == self.sets@[s2].rtype by {
                            if s2 < old_sets.len() {
                                assert(self.sets@[s2] == old_sets[s2]);
                            } else {
                                assert(self.sets@[s2].records@ == rs);
                            }
                        }
                    }
                }
            },
        }
    }

    /// The record sets of this node, in the order their types were first
    /// added.
    pub fn get_all_records(&self) -> (r: &Vec<RecordSet>)
        ensures
            *r == self.sets,
    {
        &self.sets
    }

    /// The child node labelled `label`, if any.
    pub fn get_sub_zone(&self, label: &String) -> (r: Option<usize>)
        ensures
            match r {
                Some(c) => find_child(self.children@, label@) == Some(c as int),
                None => find_child(self.children@, label@) is None,
            },
    {
        let mut i: usize = self.children.len();
        assert(self.children@.subrange(0, i as int) =~= self.children@);
        while i > 0
            invariant
                i <= self.children@.len(),
                find_child(self.children@, label@) == find_child(self.children@.subrange(0, i as int), label@),
            decreases i,
        {
            let ghost pre = self.children@.subrange(0, i as int);
            assert(pre.drop_last() =~= self.children@.subrange(0, i - 1));
            if self.children[i - 1].0 == *label {
                return Some(self.children[i - 1].1);
            }
            i = i - 1;
        }
        None
    }

    pub fn has_sub_zone(&self, label: &String) -> (r: bool)
        ensures
            r == find_child(self.children@, label@) is Some,
    {
        self.get_sub_zone(label).is_some()
    }
}

/// The zone tree. Node 0 is the root.
#[derive(Debug)]
pub struct ZoneTree {
    pub nodes: Vec<Zone>,
}

impl ZoneTree {
    /// Every child index points to a later node of the tree.
    pub open spec fn wf(self) -> bool {
        &&& self.nodes@.len() >= 1
        &&& forall|i: int, c: int|
            0 <= i < self.nodes@.len() && 0 <= c < self.nodes@[i].children@.len() ==> i
                < #[trigger] self.nodes@[i].children@[c].1 < self.nodes@.len()
    }

    /// The node reached from the root by following the last `k` labels,
    /// rightmost first.
    pub open spec fn follow(self, labels: Seq<Seq<char>>, k: nat) -> Option<int>
        decreases k,
    {
        if k == 0 {
            Some(0)
        } else {
            match self.follow(labels, (k - 1) as nat) {
                Some(p) => if 0 <= p < self.nodes@.len() && k <= labels.len() {
                    find_child(self.nodes@[p].children@, labels[labels.len() - k])
                } else {
                    None
                },
                None => None,
            }
        }
    }

    /// How many labels, from the right, the tree matches.
    pub open spec fn matched(self, labels: Seq<Seq<char>>, k: nat) -> nat
        decreases labels.len() - k,
    {
        if k < labels.len() && self.follow(labels, k + 1) is Some {
            self.matched(labels, k + 1)
        } else {
            k
        }
    }

    /// The deepest node on the path of `name` and how many labels lead to
    /// it; none when not even the rightmost label has a node.
    pub open spec fn deepest(self, name: Seq<char>) -> Option<(int, nat)> {
        let labels = labels_of(name);
        let d = self.matched(labels, 0);
        if d == 0 {
            None
        } else {
            Some((self.follow(labels, d).unwrap(), d))
        }
    }

    /// The node named exactly `name`.
    pub open spec fn exact(self, name: Seq<char>) -> Option<int> {
        let labels = labels_of(name);
        self.follow(labels, labels.len())
    }

    /// The records of type `t` owned by `name`.
    pub open spec fn records_at(self, name: Seq<char>, t: RecordType) -> Seq<Record> {
        match self.exact(name) {
            Some(n) => self.nodes@[n].spec_records(t),
            None => Seq::empty(),
        }
    }

    /// The deepest node on the path of `name` from `k` labels on that holds
    /// records of type `t`, or `best`.
    pub open spec fn deepest_with_from(
        self,
        labels: Seq<Seq<char>>,
        k: nat,
        t: RecordType,
        best: Option<(int, nat)>,
    ) -> Option<(int, nat)>
        decreases labels.len() - k,
    {
        match self.follow(labels, k) {
            Some(n) => {
                let b = if 0 <= n < self.nodes@.len() && self.nodes@[n].spec_has(t) {
                    Some((n, k))
                } else {
                    best
                };
                if k < labels.len() {
                    self.deepest_with_from(labels, k + 1, t, b)
                } else {
                    b
                }
            },
            None => best,
        }
    }

    /// The most specific node on the path of `name`, the root included,
    /// that holds records of type `t`, and how many labels lead to it.
    pub open spec fn deepest_with(self, name: Seq<char>, t: RecordType) -> Option<(int, nat)> {
        self.deepest_with_from(labels_of(name), 0, t, None)
    }

    pub proof fn lemma_follow_valid(self, labels: Seq<Seq<char>>, k: nat)
        requires
            self.wf(),
        ensures
            self.follow(labels, k) matches Some(n) ==> 0 <= n < self.nodes@.len(),
        decreases k,
    {
        if k > 0 {
            self.lemma_follow_valid(labels, (k - 1) as nat);
            if let Some(p) = self.follow(labels, (k - 1) as nat) {
                if 0 <= p < self.nodes@.len() && k <= labels.len() {
                    lemma_find_child_valid(self, p, labels[labels.len() - k]);
                }
            }
        }
    }

    pub proof fn lemma_deepest_with_has(
        self,
        labels: Seq<Seq<char>>,
        k: nat,
        t: RecordType,
        best: Option<(int, nat)>,
    )
        requires
            best matches Some((b, bk)) ==> 0 <= b < self.nodes@.len() && self.nodes@[b].spec_has(t) && bk
                <= labels.len(),
        ensures
            self.deepest_with_from(labels, k, t, best) matches Some((n, nk)) ==> 0 <= n < self.nodes@.len()
                && self.nodes@[n].spec_has(t) && nk <= labels.len(),
        decreases labels.len() - k,
    {
        if let Some(n) = self.follow(labels, k) {
            let b = if 0 <= n < self.nodes@.len() && self.nodes@[n].spec_has(t) {
                Some((n, k))
            } else {
                best
            };
            if k < labels.len() {
                self.lemma_deepest_with_has(labels, k + 1, t, b);
            } else {
            }
        }
    }

    pub proof fn lemma_follow_increasing(self, labels: Seq<Seq<char>>, j: nat, k: nat)
        requires
            self.wf(),
            j < k,
            self.follow(labels, k) is Some,
        ensures
            self.follow(labels, j) is Some,
            self.follow(labels, j).unwrap() < self.follow(labels, k).unwrap(),
        decreases k,
    {
        let p = self.follow(labels, (k - 1) as nat).unwrap();
        self.lemma_follow_valid(labels, (k - 1) as nat);
        lemma_find_child_valid(self, p, labels[labels.len() - k]);
        if j < k - 1 {
            self.lemma_follow_increasing(labels, j, (k - 1) as nat);
        }
    }

    pub proof fn lemma_follow_prefix(self, labels: Seq<Seq<char>>, j: nat, k: nat)
        requires
            j <= k,
            self.follow(labels, k) is Some,
        ensures
            self.follow(labels, j) is Some,
        decreases k - j,
    {
        if j < k {
            self.lemma_follow_prefix(labels, j, (k - 1) as nat);
        }
    }

    pub proof fn lemma_matched(self, labels: Seq<Seq<char>>, k: nat)
        requires
            k <= labels.len(),
            self.follow(labels, k) is Some,
        ensures
            k <= self.matched(labels, k) <= labels.len(),
            self.follow(labels, self.matched(labels, k)) is Some,
            self.matched(labels, k) < labels.len() ==> self.follow(labels, self.matched(labels, k) + 1) is None,
        decreases labels.len() - k,
    {
        if k < labels.len() && self.follow(labels, k + 1) is Some {
            self.lemma_matched(labels, k + 1);
        }
    }

    pub fn new(root_kind: ZoneKind) -> (r: ZoneTree)
        ensures
            r.wf(),
            r.nodes@.len() == 1,
            r.nodes@[0].kind == root_kind,
            r.nodes@[0].sets@.len() == 0,
            r.nodes@[0].children@.len() == 0,
            r.journals_sorted(),
            r.typed(),
    {
        let mut nodes: Vec<Zone> = Vec::new();
        nodes.push(Zone::new(root_kind));
        ZoneTree { nodes }
    }

    pub fn node(&self, id: usize) -> (r: &Zone)
        requires
            id < self.nodes@.len(),
        ensures
            *r == self.nodes@[id as int],
    {
        &self.nodes[id]
    }
}

pub proof fn lemma_find_child_valid(tree: ZoneTree, p: int, label: Seq<char>)
    requires
        tree.wf(),
        0 <= p < tree.nodes@.len(),
    ensures
        find_child(tree.nodes@[p].children@, label) matches Some(c) ==> p < c < tree.nodes@.len(),
{
    lemma_find_child_in(tree.nodes@[p].children@, label);
    if let Some(c) = find_child(tree.nodes@[p].children@, label) {
        let j = choose|j: int| 0 <= j < tree.nodes@[p].children@.len() && tree.nodes@[p].children@[j].1 == c;
        assert(p < tree.nodes@[p].children@[j].1 < tree.nodes@.len());
    }
}

pub proof fn lemma_find_child_in(children: Seq<(String, usize)>, label: Seq<char>)
    ensures
        find_child(children, label) matches Some(c) ==> exists|j: int| 0 <= j < children.len() && children[j].1 == c,
    decreases children.len(),
{
    if children.len() > 0 {
        lemma_find_child_in(children.drop_last(), label);
        if children.last().0@ != label {
            if let Some(c) = find_child(children.drop_last(), label) {
                let j = choose|j: int| 0 <= j < children.drop_last().len() && children.drop_last()[j].1 == c;
                assert(children[j].1 == c);
            }
        } else {
            assert(children[children.len() - 1].1 == children.last().1);
        }
    }
}

/// `after` is `before`, or `before` with one entry appended whose label
/// `before` did not hold.
pub open spec fn children_extend(before: Seq<(String, usize)>, after: Seq<(String, usize)>) -> bool {
    after == before || (after.len() == before.len() + 1 && after.drop_last() == before && find_child(
        before,
        after.last().0@,
    ) is None)
}

/// `b` has every node of `a`, each with the children it had, save at most
/// one new label per node.
pub open spec fn tree_extends(a: ZoneTree, b: ZoneTree) -> bool {
    &&& b.nodes@.len() >= a.nodes@.len()
    &&& forall|i: int|
        0 <= i < a.nodes@.len() ==> children_extend(
            #[trigger] a.nodes@[i].children@,
            b.nodes@[i].children@,
        )
}

/// Every path that leads somewhere in `a` leads to the same node in `b`.
pub open spec fn paths_kept(a: ZoneTree, b: ZoneTree) -> bool {
    forall|labels: Seq<Seq<char>>, k: nat|
        a.follow(labels, k) is Some ==> #[trigger] b.follow(labels, k) == a.follow(labels, k)
}

pub proof fn lemma_follow_grow(a: ZoneTree, b: ZoneTree, labels: Seq<Seq<char>>, k: nat)
    requires
        a.wf(),
        tree_extends(a, b),
    ensures
        a.follow(labels, k) matches Some(x) ==> b.follow(labels, k) == Some(x),
    decreases k,
{
    if k > 0 {
        lemma_follow_grow(a, b, labels, (k - 1) as nat);
        a.lemma_follow_valid(labels, (k - 1) as nat);
        if let Some(p) = a.follow(labels, (k - 1) as nat) {
            if k <= labels.len() {
                let ca = a.nodes@[p].children@;
                let cb = b.nodes@[p].children@;
                assert(children_extend(ca, cb));
                if cb != ca {
                    assert(cb =~= ca.push(cb.last()));
                    lemma_find_child_push(ca, cb.last(), labels[labels.len() - k]);
                }
            }
        }
    }
}

pub proof fn lemma_paths_kept(a: ZoneTree, b: ZoneTree)
    requires
        a.wf(),
        tree_extends(a, b),
    ensures
        paths_kept(a, b),
{
    assert forall|labels: Seq<Seq<char>>, k: nat|
        a.follow(labels, k) is Some implies #[trigger] b.follow(labels, k) == a.follow(labels, k) by {
        lemma_follow_grow(a, b, labels, k);
    }
}

pub open spec fn best_view(best: Option<(usize, usize)>) -> Option<(int, nat)> {
    match best {
        Some((b, bk)) => Some((b as int, bk as nat)),
        None => None,
    }
}

/// The labels of a vector of label strings, as character sequences.
pub open spec fn label_view(labels: Seq<String>) -> Seq<Seq<char>> {
    labels.map_values(|l: String| l@)
}

impl ZoneTree {
    /// Follows `labels` from the root as far as the tree goes.
    fn walk(&self, labels: &Vec<String>) -> (r: (usize, usize))
        requires
            self.wf(),
        ensures
            r.1 == self.matched(label_view(labels@), 0),
            self.follow(label_view(labels@), r.1 as nat) == Some(r.0 as int),
            r.0 < self.nodes@.len(),
            r.1 <= labels@.len(),
    {
        let ghost lv = label_view(labels@);
        let mut cur: usize = 0;
        let mut k: usize = 0;
        while k < labels.len()
            invariant
                self.wf(),
                lv == label_view(labels@),
                k <= labels@.len(),
                self.follow(lv, k as nat) == Some(cur as int),
                cur < self.nodes@.len(),
                self.matched(lv, 0) == self.matched(lv, k as nat),
            decreases labels@.len() - k,
        {
            let label = &labels[labels.len() - 1 - k];
            match self.nodes[cur].get_sub_zone(label) {
                Some(c) => {
                    proof {
                        lemma_find_child_valid(*self, cur as int, label@);
                        assert(lv[lv.len() - (k + 1)] == label@);
                        assert(self.follow(lv, (k + 1) as nat) == Some(c as int));
                    }
                    cur = c;
                    k = k + 1;
                },
                None => {
                    proof {
                        assert(lv[lv.len() - (k + 1)] == label@);
                    }
                    return (cur, k);
                },
            }
        }
        (cur, k)
    }

    /// The deepest node on the path of `name`, the number of labels that
    /// lead to it and the number of labels of `name`.
    pub fn get_deepest_zone(&self, name: &str) -> (r: Option<(usize, usize, usize)>)
        requires
            self.wf(),
        ensures
            match r {
                Some((n, d, c)) => self.deepest(name@) == Some((n as int, d as nat)) && n < self.nodes@.len()
                    && d <= c && c == labels_of(name@).len(),
                None => self.deepest(name@) is None,
            },
    {
        let labels = name_labels(name);
        let (n, d) = self.walk(&labels);
        if d == 0 {
            None
        } else {
            Some((n, d, labels.len()))
        }
    }

    /// The node named exactly `name`.
    pub fn get_zone_exact(&self, name: &str) -> (r: Option<usize>)
        requires
            self.wf(),
        ensures
            match r {
                Some(n) => self.exact(name@) == Some(n as int) && n < self.nodes@.len(),
                None => self.exact(name@) is None,
            },
    {
        let labels = name_labels(name);
        let ghost lv = label_view(labels@);
        let (n, d) = self.walk(&labels);
        proof {
            self.lemma_follow_prefix(lv, 0, d as nat);
            self.lemma_matched(lv, 0);
        }
        if d == labels.len() {
            Some(n)
        } else {
            proof {
                if self.follow(lv, lv.len()) is Some {
                    self.lemma_follow_prefix(lv, (d + 1) as nat, lv.len());
                }
            }
            None
        }
    }

    pub fn holds_type(&self, id: usize, t: RecordType) -> (r: bool)
        requires
            id < self.nodes@.len(),
        ensures
            r == self.nodes@[id as int].spec_has(t),
    {
        match self.nodes[id].get_records(t) {
            Some(v) => v.len() > 0,
            None => false,
        }
    }

    /// The most specific node on the path of `name`, the root included, that
    /// holds records of type `t`, with its owner name.
    pub fn get_deepest_zone_with_records(&self, name: &String, t: RecordType) -> (r: Option<(String, usize)>)
        requires
            self.wf(),
        ensures
            match self.deepest_with(name@, t) {
                Some((n, k)) => r matches Some((owner, id)) && id == n && n < self.nodes@.len()
                    && owner@ == crate::names::strip_labels(name@, (labels_of(name@).len() - k) as nat),
                None => r is None,
            },
    {
        let labels = name_labels(name.as_str());
        let ghost lv = label_view(labels@);
        let mut cur: usize = 0;
        let mut k: usize = 0;
        let mut best: Option<(usize, usize)> = None;
        loop
            invariant
                self.wf(),
                lv == label_view(labels@),
                lv.len() == labels_of(name@).len(),
                k <= labels@.len(),
                self.follow(lv, k as nat) == Some(cur as int),
                cur < self.nodes@.len(),
                best matches Some((b, bk)) ==> b < self.nodes@.len() && bk <= k,
                self.deepest_with(name@, t) == self.deepest_with_from(
                    lv,
                    k as nat,
                    t,
                    best_view(best),
                ),
            ensures
                self.deepest_with(name@, t) == best_view(best),
                best matches Some((b, bk)) ==> b < self.nodes@.len() && bk <= labels@.len(),
            decreases labels@.len() - k,
        {
            let ghost bv0 = best_view(best);
            if self.holds_type(cur, t) {
                best = Some((cur, k));
            }
            assert(best_view(best) == if self.nodes@[cur as int].spec_has(t) { Some((cur as int, k as nat)) } else { bv0 });
            if k == labels.len() {
                assert(self.deepest_with(name@, t) == best_view(best));
                break;
            }
            let label = &labels[labels.len() - 1 - k];
            match self.nodes[cur].get_sub_zone(label) {
                Some(c) => {
                    proof {
                        lemma_find_child_valid(*self, cur as int, label@);
                        assert(lv[lv.len() - (k + 1)] == label@);
                    }
                    cur = c;
                    k = k + 1;
                },
                None => {
                    proof {
                        assert(lv[lv.len() - (k + 1)] == label@);
                        assert(self.follow(lv, (k + 1) as nat) is None);
                        assert(self.deepest_with_from(lv, (k + 1) as nat, t, best_view(best)) == best_view(best));
                        assert(self.deepest_with(name@, t) == best_view(best));
                    }
                    break;
                },
            }
        }
        assert(self.deepest_with(name@, t) == best_view(best));
        match best {
            Some((b, bk)) => {
                let owner = crate::names::strip_leading_labels(name, labels.len() - bk);
                Some((owner, b))
            },
            None => None,
        }
    }
}

/// Every node of `a` has in `b` the children it had in `a`, followed only by
/// children that are nodes `a` lacks.
pub open spec fn children_grow_new(a: ZoneTree, b: ZoneTree) -> bool {
    &&& b.nodes@.len() >= a.nodes@.len()
    &&& forall|i: int|
        0 <= i < a.nodes@.len() ==> children_prefix(a.nodes@[i].children@, (#[trigger] b.nodes@[i]).children@, a.nodes@.len() as int)
}

/// `after` is `before` followed by entries pointing at `bound` or beyond.
pub open spec fn children_prefix(before: Seq<(String, usize)>, after: Seq<(String, usize)>, bound: int) -> bool {
    &&& after.len() >= before.len()
    &&& after.subrange(0, before.len() as int) == before
    &&& forall|j: int| before.len() <= j < after.len() ==> (#[trigger] after[j]).1 >= bound
}

pub proof fn lemma_find_child_prefix(before: Seq<(String, usize)>, after: Seq<(String, usize)>, bound: int, label: Seq<char>)
    requires
        children_prefix(before, after, bound),
        find_child(after, label) matches Some(x) && x < bound,
    ensures
        find_child(before, label) == find_child(after, label),
    decreases after.len(),
{
    if after.len() == before.len() {
        assert(after =~= after.subrange(0, before.len() as int));
    } else {
        let l = after[after.len() - 1];
        assert(l.1 >= bound);
        assert(children_prefix(before, after.drop_last(), bound)) by {
            assert(after.drop_last().subrange(0, before.len() as int) =~= after.subrange(0, before.len() as int));
            assert forall|j: int| before.len() <= j < after.drop_last().len() implies (#[trigger] after.drop_last()[j]).1 >= bound by {
                assert(after.drop_last()[j] == after[j]);
            }
        }
        lemma_find_child_prefix(before, after.drop_last(), bound, label);
    }
}

/// A path of `b` that ends at a node of `a` is a path of `a`.
pub proof fn lemma_follow_back(a: ZoneTree, b: ZoneTree, labels: Seq<Seq<char>>, k: nat)
    requires
        b.wf(),
        children_grow_new(a, b),
        b.follow(labels, k) matches Some(x) && x < a.nodes@.len(),
    ensures
        a.follow(labels, k) == b.follow(labels, k),
    decreases k,
{
    if k > 0 {
        let p = b.follow(labels, (k - 1) as nat).unwrap();
        b.lemma_follow_valid(labels, (k - 1) as nat);
        let l = labels[labels.len() - k];
        lemma_find_child_valid(b, p, l);
        lemma_follow_back(a, b, labels, (k - 1) as nat);
        assert(children_prefix(a.nodes@[p].children@, b.nodes@[p].children@, a.nodes@.len() as int));
        lemma_find_child_prefix(a.nodes@[p].children@, b.nodes@[p].children@, a.nodes@.len() as int, l);
    }
}

/// After `ensure_path` took `before` to `mid` and node `id` of `mid` was
/// changed in everything but its children to give `after`, every name
/// whose node is not `id` owns what it owned in `before`.
pub proof fn lemma_other_names(before: ZoneTree, mid: ZoneTree, after: ZoneTree, id: int, n2: Seq<char>, t: RecordType)
    requires
        before.wf(),
        mid.wf(),
        children_grow_new(before, mid),
        paths_kept(before, mid),
        nodes_kept(before, mid),
        forall|i: int| before.nodes@.len() <= i < mid.nodes@.len() ==> (#[trigger] mid.nodes@[i]).sets@.len() == 0,
        after.nodes@.len() == mid.nodes@.len(),
        0 <= id < mid.nodes@.len(),
        after.nodes@[id].children == mid.nodes@[id].children,
        forall|i: int| 0 <= i < mid.nodes@.len() && i != id ==> #[trigger] after.nodes@[i] == mid.nodes@[i],
        after.exact(n2) != Some(id),
    ensures
        after.records_at(n2, t) == before.records_at(n2, t),
{
    let labels = labels_of(n2);
    assert forall|i: int| 0 <= i < mid.nodes@.len() implies children_extend(
        #[trigger] mid.nodes@[i].children@,
        after.nodes@[i].children@,
    ) by {
        if i != id {
            assert(after.nodes@[i] == mid.nodes@[i]);
        }
    }
    lemma_paths_kept(mid, after);
    assert(after.wf()) by {
        assert forall|i: int, c: int|
            0 <= i < after.nodes@.len() && 0 <= c < after.nodes@[i].children@.len() implies i
                < #[trigger] after.nodes@[i].children@[c].1 < after.nodes@.len() by {
            if i != id {
                assert(after.nodes@[i] == mid.nodes@[i]);
            }
        }
    }
    assert forall|i: int| 0 <= i < after.nodes@.len() implies children_extend(
        #[trigger] after.nodes@[i].children@,
        mid.nodes@[i].children@,
    ) by {
        if i != id {
            assert(after.nodes@[i] == mid.nodes@[i]);
        }
    }
    lemma_paths_kept(after, mid);
    before.lemma_follow_valid(labels, labels.len());
    mid.lemma_follow_valid(labels, labels.len());
    match mid.exact(n2) {
        None => {},
        Some(x) => {
            assert(after.nodes@[x] == mid.nodes@[x]);
            if x < before.nodes@.len() {
                lemma_follow_back(before, mid, labels, labels.len());
            } else {
                assert(mid.nodes@[x].spec_records(t) =~= Seq::<Record>::empty());
            }
        },
    }
}

pub proof fn lemma_typed_kept(a: ZoneTree, b: ZoneTree)
    requires
        a.typed(),
        nodes_kept(a, b),
        forall|i: int| a.nodes@.len() <= i < b.nodes@.len() ==> (#[trigger] b.nodes@[i]).sets@.len() == 0,
    ensures
        b.typed(),
{
    assert forall|i: int| 0 <= i < b.nodes@.len() implies (#[trigger] b.nodes@[i]).typed() by {
        if i < a.nodes@.len() {
            assert(a.nodes@[i].typed());
            assert(b.nodes@[i].sets == a.nodes@[i].sets);
        }
    }
}

/// Every path of `b` that ends at a node of `a` is a path of `a`.
pub open spec fn paths_back(a: ZoneTree, b: ZoneTree) -> bool {
    forall|l: Seq<Seq<char>>, k: nat|
        (#[trigger] b.follow(l, k)) matches Some(x) && x < a.nodes@.len() ==> a.follow(l, k) == b.follow(l, k)
}

/// Every node of `a` keeps its kind, records and journal in `b`.
pub open spec fn nodes_kept(a: ZoneTree, b: ZoneTree) -> bool {
    &&& b.nodes@.len() >= a.nodes@.len()
    &&& forall|i: int|
        0 <= i < a.nodes@.len() ==> (#[trigger] b.nodes@[i]).sets == a.nodes@[i].sets
            && b.nodes@[i].kind == a.nodes@[i].kind && b.nodes@[i].journal == a.nodes@[i].journal
}

/// The nodes of `b` that `a` lacks hold nothing and have kind `kind`.
pub open spec fn new_nodes_empty(a: ZoneTree, b: ZoneTree, kind: ZoneKind) -> bool {
    forall|i: int|
        a.nodes@.len() <= i < b.nodes@.len() ==> (#[trigger] b.nodes@[i]).sets@.len() == 0
            && b.nodes@[i].kind == kind && b.nodes@[i].journal@.len() == 0
}

impl ZoneTree {
    /// Makes sure a node exists for every label of `labels`, creating
    /// missing nodes with kind `kind`, and returns the node they lead to.
    fn ensure_path(&mut self, labels: &Vec<String>, kind: ZoneKind) -> (id: usize)
        requires
            old(self).wf(),
        ensures
            final(self).wf(),
            final(self).follow(label_view(labels@), labels@.len() as nat) == Some(id as int),
            id < final(self).nodes@.len(),
            paths_kept(*old(self), *final(self)),
            final(self).nodes@.len() >= old(self).nodes@.len(),
            nodes_kept(*old(self), *final(self)),
            new_nodes_empty(*old(self), *final(self), kind),
            children_grow_new(*old(self), *final(self)),
            old(self).follow(label_view(labels@), labels@.len() as nat) == Some(id as int) || (old(self).follow(label_view(labels@), labels@.len() as nat) is None && id >= old(self).nodes@.len()),
    {
        let ghost lv = label_view(labels@);
        let ghost start = *self;
        let mut cur: usize = 0;
        let mut k: usize = 0;
        let ghost mut fresh = false;
        assert forall|i: int| 0 <= i < start.nodes@.len() implies children_prefix(
            start.nodes@[i].children@,
            (#[trigger] self.nodes@[i]).children@,
            start.nodes@.len() as int,
        ) by {
            assert(self.nodes@[i].children@.subrange(0, self.nodes@[i].children@.len() as int) =~= self.nodes@[i].children@);
        }
        while k < labels.len()
            invariant
                self.wf(),
                start.wf(),
                !fresh ==> start.follow(lv, k as nat) == Some(cur as int) && forall|i: int|
                    cur <= i < start.nodes@.len() ==> (#[trigger] self.nodes@[i]).children == start.nodes@[i].children,
                fresh ==> cur >= start.nodes@.len() && start.follow(lv, k as nat) is None,
                lv == label_view(labels@),
                k <= labels@.len(),
                self.follow(lv, k as nat) == Some(cur as int),
                cur < self.nodes@.len(),
                paths_kept(start, *self),
                self.nodes@.len() >= start.nodes@.len(),
                nodes_kept(start, *self),
                new_nodes_empty(start, *self, kind),
                children_grow_new(start, *self),
            decreases labels@.len() - k,
        {
            let label = &labels[labels.len() - 1 - k];
            proof {
                assert(lv[lv.len() - (k + 1)] == label@);
            }
            match self.nodes[cur].get_sub_zone(label) {
                Some(c) => {
                    proof {
                        lemma_find_child_valid(*self, cur as int, label@);
                        if !fresh {
                            start.lemma_follow_valid(lv, k as nat);
                            assert(start.follow(lv, (k + 1) as nat) == Some(c as int));
                        }
                    }
                    cur = c;
                    k = k + 1;
                },
                None => {
                    proof {
                        if !fresh {
                            start.lemma_follow_valid(lv, k as nat);
                            assert(start.follow(lv, (k + 1) as nat) is None);
                        }
                    }
                    let ghost s0 = *self;
                    let id = self.nodes.len();
                    self.nodes.push(Zone::new(kind));
                    let ghost s1 = *self;
                    proof {
                        assert(s1.nodes@.drop_last() =~= s0.nodes@);
                        assert forall|i: int| 0 <= i < s0.nodes@.len() implies children_extend(
                            #[trigger] s0.nodes@[i].children@,
                            s1.nodes@[i].children@,
                        ) by {
                            assert(s1.nodes@[i] == s0.nodes@[i]);
                        }
                        lemma_paths_kept(s0, s1);
                    }
                    let ghost old_children = self.nodes@[cur as int].children@;
                    let lc = label.clone();
                    self.nodes[cur].children.push((lc, id));
                    proof {
                        let s2 = *self;
                        assert(s2.nodes@[cur as int].children@ == old_children.push((lc, id)));
                        assert forall|i: int| 0 <= i < s1.nodes@.len() implies children_extend(
                            #[trigger] s1.nodes@[i].children@,
                            s2.nodes@[i].children@,
                        ) by {
                            if i == cur {
                                assert(s2.nodes@[i].children@.drop_last() =~= s1.nodes@[i].children@);
                            }
                        }
                        assert(s1.wf());
                        lemma_paths_kept(s1, s2);
                        lemma_find_child_push(old_children, (lc, id), label@);
                        assert(s1.follow(lv, k as nat) == Some(cur as int));
                        assert(s2.follow(lv, k as nat) == Some(cur as int));
                        assert(s2.follow(lv, (k + 1) as nat) == Some(id as int));
                        assert forall|i: int| 0 <= i < start.nodes@.len() implies children_prefix(
                            start.nodes@[i].children@,
                            (#[trigger] s2.nodes@[i]).children@,
                            start.nodes@.len() as int,
                        ) by {
                            assert(children_prefix(start.nodes@[i].children@, s0.nodes@[i].children@, start.nodes@.len() as int));
                            if i == cur {
                                let a = start.nodes@[i].children@;
                                let b = s2.nodes@[i].children@;
                                assert(b.subrange(0, a.len() as int) =~= s0.nodes@[i].children@.subrange(0, a.len() as int));
                                assert forall|j: int| a.len() <= j < b.len() implies (#[trigger] b[j]).1 >= start.nodes@.len() by {
                                    if j < b.len() - 1 {
                                        assert(b[j] == s0.nodes@[i].children@[j]);
                                    }
                                }
                            } else {
                                assert(s2.nodes@[i] == s0.nodes@[i]);
                            }
                        }
                        fresh = true;
                    }
                    cur = id;
                    k = k + 1;
                },
            }
        }
        cur
    }
}

/// Every record that `a` holds under a name, `b` holds there too.
pub open spec fn records_grow(a: ZoneTree, b: ZoneTree) -> bool {
    forall|name: Seq<char>, t: RecordType, r: Record|
        a.records_at(name, t).contains(r) ==> #[trigger] b.records_at(name, t).contains(r)
}

impl ZoneTree {
    /// Appends `record` to the records of its type owned by `name`, creating
    /// missing nodes on the way with kind `default_kind`.
    pub fn add_record_to(&mut self, name: &str, record: Record, default_kind: ZoneKind)
        requires
            old(self).wf(),
        ensures
            final(self).wf(),
            forall|t: RecordType|
                #[trigger] final(self).records_at(name@, t) == if t == record.spec_type() {
                    old(self).records_at(name@, t).push(record)
                } else {
                    old(self).records_at(name@, t)
                },
            records_grow(*old(self), *final(self)),
            paths_kept(*old(self), *final(self)),
            final(self).nodes@.len() >= old(self).nodes@.len(),
            forall|i: int| 0 <= i < old(self).nodes@.len() ==> (#[trigger] final(self).nodes@[i]).kind == old(self).nodes@[i].kind,
            forall|i: int|
                old(self).nodes@.len() <= i < final(self).nodes@.len() ==> (#[trigger] final(self).nodes@[i]).kind
                    == default_kind,
            forall|n2: Seq<char>, t: RecordType|
                final(self).exact(n2) != final(self).exact(name@) ==> #[trigger] final(self).records_at(n2, t)
                    == old(self).records_at(n2, t),
            final(self).exact(name@) is Some,
            paths_back(*old(self), *final(self)),
            old(self).exact(name@) is None ==> final(self).exact(name@).unwrap() >= old(self).nodes@.len(),
            old(self).journals_sorted() ==> final(self).journals_sorted(),
            old(self).typed() ==> final(self).typed(),
    {
        let labels = name_labels(name);
        let ghost lv = label_view(labels@);
        let ghost before = *self;
        let id = self.ensure_path(&labels, default_kind);
        let ghost mid = *self;
        let ghost rec = record;
        self.nodes[id].add_record(record);
        proof {
            let after = *self;
            if before.typed() {
                lemma_typed_kept(before, mid);
                assert(mid.nodes@[id as int].typed());
                assert forall|i: int| 0 <= i < after.nodes@.len() implies (#[trigger] after.nodes@[i]).typed() by {
                    if i != id {
                        assert(after.nodes@[i] == mid.nodes@[i]);
                    }
                }
            }
            assert forall|i: int|
                before.nodes@.len() <= i < after.nodes@.len() implies (#[trigger] after.nodes@[i]).kind == default_kind by {
                assert(after.nodes@[i].kind == mid.nodes@[i].kind);
            }
            assert forall|i: int| 0 <= i < mid.nodes@.len() implies children_extend(
                #[trigger] mid.nodes@[i].children@,
                after.nodes@[i].children@,
            ) by {
                if i != id {
                    assert(after.nodes@[i] == mid.nodes@[i]);
                }
            }
            lemma_paths_kept(mid, after);
            assert(after.exact(name@) == Some(id as int));
            before.lemma_follow_valid(lv, lv.len());
            assert forall|t: RecordType| #[trigger] after.records_at(name@, t) == if t == rec.spec_type() {
                before.records_at(name@, t).push(rec)
            } else {
                before.records_at(name@, t)
            } by {
                if before.exact(name@) is None {
                    assert(mid.nodes@[id as int].sets@.len() == 0);
                    assert(mid.nodes@[id as int].spec_records(t) =~= Seq::<Record>::empty());
                }
            }
            assert forall|n2: Seq<char>, t: RecordType, r: Record|
                before.records_at(n2, t).contains(r) implies #[trigger] after.records_at(n2, t).contains(r) by {
                before.lemma_follow_valid(labels_of(n2), labels_of(n2).len());
                let x = before.exact(n2).unwrap();
                assert(mid.exact(n2) == Some(x));
                assert(after.exact(n2) == Some(x));
                if x == id {
                    let j = choose|j: int| 0 <= j < before.records_at(n2, t).len() && before.records_at(n2, t)[j] == r;
                    if t == rec.spec_type() {
                        assert(after.records_at(n2, t)[j] == r);
                    } else {
                        assert(after.records_at(n2, t)[j] == r);
                    }
                } else {
                    assert(after.nodes@[x] == mid.nodes@[x]);
                }
            }
            assert forall|i: int| 0 <= i < before.nodes@.len() implies (#[trigger] after.nodes@[i]).kind == before.nodes@[i].kind by {
                assert(mid.nodes@[i].kind == before.nodes@[i].kind);
            }
            assert forall|n2: Seq<char>, t: RecordType|
                after.exact(n2) != after.exact(name@) implies #[trigger] after.records_at(n2, t) == before.records_at(n2, t) by {
                lemma_other_names(before, mid, after, id as int, n2, t);
            }
            assert(mid.wf());
            assert forall|i: int| 0 <= i < mid.nodes@.len() implies children_extend(
                #[trigger] after.nodes@[i].children@,
                mid.nodes@[i].children@,
            ) by {
                if i != id {
                    assert(after.nodes@[i] == mid.nodes@[i]);
                }
            }
            lemma_paths_kept(after, mid);
            assert forall|l: Seq<Seq<char>>, k: nat|
                (#[trigger] after.follow(l, k)) matches Some(x) && x < before.nodes@.len() implies before.follow(l, k)
                    == after.follow(l, k) by {
                lemma_follow_back(before, mid, l, k);
            }
            if before.journals_sorted() {
                assert forall|i: int| 0 <= i < after.nodes@.len() implies journal_sorted(#[trigger] after.nodes@[i].journal@) by {
                    assert(after.nodes@[i].journal == mid.nodes@[i].journal);
                    if i < before.nodes@.len() {
                        assert(journal_sorted(before.nodes@[i].journal@));
                    }
                }
            }
        }
    }

    /// Makes sure a node exists for `name`, creating missing nodes on the way
    /// with kind `default_kind`, and gives that node kind `kind`.
    pub fn add_zone_to(&mut self, name: &str, kind: ZoneKind, default_kind: ZoneKind) -> (id: usize)
        requires
            old(self).wf(),
        ensures
            final(self).wf(),
            final(self).exact(name@) == Some(id as int),
            id < final(self).nodes@.len(),
            final(self).nodes@[id as int].kind == kind,
            forall|t: RecordType| #[trigger] final(self).records_at(name@, t) == old(self).records_at(name@, t),
            records_grow(*old(self), *final(self)),
            paths_kept(*old(self), *final(self)),
            forall|i: int|
                0 <= i < old(self).nodes@.len() && i != id ==> (#[trigger] final(self).nodes@[i]).kind == old(self).nodes@[i].kind,
            forall|i: int|
                old(self).nodes@.len() <= i < final(self).nodes@.len() && i != id ==> (#[trigger] final(self).nodes@[i]).kind == default_kind,
            forall|n2: Seq<char>, t: RecordType| #[trigger] final(self).records_at(n2, t) == old(self).records_at(n2, t),
            old(self).journals_sorted() ==> final(self).journals_sorted(),
            old(self).typed() ==> final(self).typed(),
    {
        let labels = name_labels(name);
        let ghost lv = label_view(labels@);
        let ghost before = *self;
        let id = self.ensure_path(&labels, default_kind);
        let ghost mid = *self;
        self.nodes[id].set_type(kind);
        proof {
            let after = *self;
            if before.typed() {
                lemma_typed_kept(before, mid);
                assert forall|i: int| 0 <= i < after.nodes@.len() implies (#[trigger] after.nodes@[i]).typed() by {
                    assert(after.nodes@[i].sets == mid.nodes@[i].sets);
                    assert(mid.nodes@[i].typed());
                }
            }
            assert forall|i: int| 0 <= i < after.nodes@.len() implies children_extend(
                #[trigger] after.nodes@[i].children@,
                mid.nodes@[i].children@,
            ) by {
                if i != id {
                    assert(after.nodes@[i] == mid.nodes@[i]);
                }
            }
            assert(after.wf()) by {
                assert forall|i: int, c: int|
                    0 <= i < after.nodes@.len() && 0 <= c < after.nodes@[i].children@.len() implies i
                        < #[trigger] after.nodes@[i].children@[c].1 < after.nodes@.len() by {
                    if i != id {
                        assert(after.nodes@[i] == mid.nodes@[i]);
                    }
                }
            }
            lemma_paths_kept(after, mid);
            assert forall|n2: Seq<char>, t: RecordType| #[trigger] after.records_at(n2, t) == before.records_at(n2, t) by {
                if after.exact(n2) != Some(id as int) {
                    lemma_other_names(before, mid, after, id as int, n2, t);
                } else {
                    let l = labels_of(n2);
                    assert(mid.exact(n2) == Some(id as int));
                    before.lemma_follow_valid(l, l.len());
                    if id < before.nodes@.len() {
                        lemma_follow_back(before, mid, l, l.len());
                    } else {
                        assert(mid.nodes@[id as int].spec_records(t) =~= Seq::<Record>::empty());
                    }
                }
            }
            assert forall|i: int|
                0 <= i < before.nodes@.len() && i != id implies (#[trigger] after.nodes@[i]).kind == before.nodes@[i].kind by {
                assert(after.nodes@[i] == mid.nodes@[i]);
            }
            assert forall|i: int|
                before.nodes@.len() <= i < after.nodes@.len() && i != id implies (#[trigger] after.nodes@[i]).kind == default_kind by {
                assert(after.nodes@[i] == mid.nodes@[i]);
            }
        }
        proof {
            let after = *self;
            assert forall|i: int| 0 <= i < mid.nodes@.len() implies children_extend(
                #[trigger] mid.nodes@[i].children@,
                after.nodes@[i].children@,
            ) by {
                if i != id {
                    assert(after.nodes@[i] == mid.nodes@[i]);
                }
            }
            lemma_paths_kept(mid, after);
            before.lemma_follow_valid(lv, lv.len());
            assert forall|t: RecordType| #[trigger] after.records_at(name@, t) == before.records_at(name@, t) by {
                if before.exact(name@) is None {
                    assert(mid.nodes@[id as int].spec_records(t) =~= Seq::<Record>::empty());
                }
            }
            assert forall|n2: Seq<char>, t: RecordType, r: Record|
                before.records_at(n2, t).contains(r) implies #[trigger] after.records_at(n2, t).contains(r) by {
                before.lemma_follow_valid(labels_of(n2), labels_of(n2).len());
                let x = before.exact(n2).unwrap();
                assert(mid.exact(n2) == Some(x));
                assert(after.exact(n2) == Some(x));
                assert(after.nodes@[x].sets == mid.nodes@[x].sets);
            }
            if before.journals_sorted() {
                assert forall|i: int| 0 <= i < after.nodes@.len() implies journal_sorted(#[trigger] after.nodes@[i].journal@) by {
                    assert(after.nodes@[i].journal == mid.nodes@[i].journal);
                    if i < before.nodes@.len() {
                        assert(journal_sorted(before.nodes@[i].journal@));
                    }
                }
            }
        }
        id
    }
}

impl ZoneTree {
    /// Every record set of every node holds records of its own type only.
    pub open spec fn typed(self) -> bool {
        forall|i: int| 0 <= i < self.nodes@.len() ==> (#[trigger] self.nodes@[i]).typed()
    }

    /// Every node's journal is in serial order.
    pub open spec fn journals_sorted(self) -> bool {
        forall|i: int| 0 <= i < self.nodes@.len() ==> journal_sorted(#[trigger] self.nodes@[i].journal@)
    }
}

/// The journal is in strictly increasing order of starting serial.
pub open spec fn journal_sorted(j: Seq<Txn>) -> bool {
    forall|a: int, b: int| 0 <= a < b < j.len() ==> #[trigger] j[a].serial_from < #[trigger] j[b].serial_from
}

impl Zone {
    /// Records a transaction under its starting serial, replacing one that
    /// starts at the same serial; the journal stays in serial order.
    pub fn add_txn(&mut self, txn: Txn)
        requires
            journal_sorted(old(self).journal@),
        ensures
            journal_sorted(final(self).journal@),
            final(self).journal@.contains(txn),
            forall|e: Txn|
                old(self).journal@.contains(e) && e.serial_from != txn.serial_from ==> #[trigger] final(self).journal@.contains(e),
            forall|e: Txn|
                #[trigger] final(self).journal@.contains(e) ==> e == txn || (old(self).journal@.contains(e)
                    && e.serial_from != txn.serial_from),
            final(self).kind == old(self).kind,
            final(self).sets == old(self).sets,
            final(self).children == old(self).children,
    {
        let ghost j0 = self.journal@;
        let ghost t = txn;
        let mut p: usize = 0;
        while p < self.journal.len() && self.journal[p].serial_from < txn.serial_from
            invariant
                p <= self.journal@.len(),
                self.journal@ == j0,
                forall|a: int| 0 <= a < p ==> (#[trigger] j0[a]).serial_from < txn.serial_from,
            decreases self.journal@.len() - p,
        {
            p = p + 1;
        }
        if p < self.journal.len() && self.journal[p].serial_from == txn.serial_from {
            let _ = self.journal.remove(p);
            let ghost j1 = self.journal@;
            self.journal.insert(p, txn);
            proof {
                assert(self.journal@ =~= j0.update(p as int, t));
                assert(self.journal@[p as int] == t);
                assert forall|e: Txn|
                    j0.contains(e) && e.serial_from != t.serial_from implies #[trigger] self.journal@.contains(e) by {
                    let a = choose|a: int| 0 <= a < j0.len() && j0[a] == e;
                    assert(a != p);
                    assert(self.journal@[a] == e);
                }
                assert forall|e: Txn| #[trigger] self.journal@.contains(e) implies e == t || (j0.contains(e)
                    && e.serial_from != t.serial_from) by {
                    let a = choose|a: int| 0 <= a < self.journal@.len() && self.journal@[a] == e;
                    if a != p {
                        assert(j0[a] == e);
                        if a < p {
                            assert(j0[a].serial_from < t.serial_from);
                        } else {
                            assert(j0[p as int].serial_from < j0[a].serial_from);
                        }
                    }
                }
            }
        } else {
            self.journal.insert(p, txn);
            proof {
                let j2 = self.journal@;
                assert(j2 =~= j0.subrange(0, p as int).push(t) + j0.subrange(p as int, j0.len() as int));
                assert forall|a: int| 0 <= a < j2.len() implies #[trigger] j2[a] == if a < p {
                    j0[a]
                } else if a == p {
                    t
                } else {
                    j0[a - 1]
                } by {}
                assert forall|e: Txn|
                    j0.contains(e) && e.serial_from != t.serial_from implies #[trigger] j2.contains(e) by {
                    let a = choose|a: int| 0 <= a < j0.len() && j0[a] == e;
                    if a < p {
                        assert(j2[a] == e);
                    } else {
                        assert(j2[a + 1] == e);
                    }
                }
                assert(j2[p as int] == t);
                assert forall|e: Txn| #[trigger] j2.contains(e) implies e == t || (j0.contains(e)
                    && e.serial_from != t.serial_from) by {
                    let a = choose|a: int| 0 <= a < j2.len() && j2[a] == e;
                    if a < p {
                        assert(j0[a] == e);
                    } else if a > p {
                        assert(j0[a - 1] == e);
                        assert(j0[p as int].serial_from >= t.serial_from);
                        if a - 1 > p {
                            assert(j0[p as int].serial_from < j0[a - 1].serial_from);
                        }
                    }
                }
                assert forall|a: int, b: int| 0 <= a < b < j2.len() implies #[trigger] j2[a].serial_from
                    < #[trigger] j2[b].serial_from by {
                    if b < p {
                    } else if b == p {
                        assert(j0[a].serial_from < t.serial_from);
                    } else if a < p {
                        assert(j0[a].serial_from < t.serial_from);
                        assert(j0[p as int].serial_from >= t.serial_from);
                        if b - 1 > p {
                            assert(j0[p as int].serial_from < j0[b - 1].serial_from);
                        }
                    } else if a == p {
                        assert(j0[p as int].serial_from > t.serial_from);
                        if b - 1 > p {
                            assert(j0[p as int].serial_from < j0[b - 1].serial_from);
                        }
                    } else {
                        assert(j0[a - 1].serial_from < j0[b - 1].serial_from);
                    }
                }
            }
        }
    }
}

/// No transaction of `ts` after position `j` and before `end` starts at the
/// serial that `ts[j]` starts at.
pub open spec fn last_for_serial(ts: Seq<Txn>, j: int, end: int) -> bool {
    forall|k: int| j < k < end ==> (#[trigger] ts[k]).serial_from != ts[j].serial_from
}

/// A node that is no older than `bound` has kind `kind`.
pub open spec fn created_has_kind(tree: ZoneTree, node: Option<int>, bound: int, kind: ZoneKind) -> bool {
    match node {
        Some(x) => x >= bound ==> 0 <= x < tree.nodes@.len() && tree.nodes@[x].kind == kind,
        None => true,
    }
}

/// The records of `list` of type `t` whose owner names have, in `tree`,
/// the node that `name` has, in list order.
pub open spec fn listed_at(tree: ZoneTree, list: Seq<(String, Record)>, name: Seq<char>, t: RecordType) -> Seq<Record>
    decreases list.len(),
{
    if list.len() == 0 {
        Seq::empty()
    } else {
        let rest = listed_at(tree, list.drop_last(), name, t);
        let e = list.last();
        if tree.exact(e.0@) is Some && tree.exact(e.0@) == tree.exact(name) && e.1.spec_type() == t {
            rest.push(e.1)
        } else {
            rest
        }
    }
}

pub proof fn lemma_listed_stable(a: ZoneTree, b: ZoneTree, list: Seq<(String, Record)>, name: Seq<char>, t: RecordType)
    requires
        a.wf(),
        paths_kept(a, b),
        paths_back(a, b),
        forall|j: int| 0 <= j < list.len() ==> a.exact((#[trigger] list[j]).0@) is Some,
    ensures
        listed_at(b, list, name, t) == listed_at(a, list, name, t),
    decreases list.len(),
{
    if list.len() > 0 {
        assert forall|j: int| 0 <= j < list.drop_last().len() implies a.exact((#[trigger] list.drop_last()[j]).0@) is Some by {
            assert(list.drop_last()[j] == list[j]);
        }
        lemma_listed_stable(a, b, list.drop_last(), name, t);
        let e = list.last();
        assert(a.exact(list[list.len() - 1].0@) is Some);
        a.lemma_follow_valid(labels_of(e.0@), labels_of(e.0@).len());
        a.lemma_follow_valid(labels_of(name), labels_of(name).len());
    }
}

impl ZoneTree {
    /// Installs a parsed zone at `domain` with kind `kind`: nodes missing on
    /// the way to it get `default_kind`, nodes created for its records get
    /// `kind`. The records of each name and type become its old records
    /// followed by the listed records whose owner names lead to the same
    /// node, in list order; names that no listed owner leads to keep theirs.
    pub fn register_zone(&mut self, domain: &str, kind: ZoneKind, default_kind: ZoneKind, records: Vec<(String, Record)>)
        requires
            old(self).wf(),
        ensures
            final(self).wf(),
            old(self).journals_sorted() ==> final(self).journals_sorted(),
            final(self).exact(domain@) matches Some(n) && 0 <= n < final(self).nodes@.len() && final(self).nodes@[n].kind == kind,
            old(self).typed() ==> final(self).typed(),
            forall|k: nat|
                k < labels_of(domain@).len() ==> created_has_kind(
                    *final(self),
                    #[trigger] final(self).follow(labels_of(domain@), k),
                    old(self).nodes@.len() as int,
                    default_kind,
                ),
            forall|name: Seq<char>, t: RecordType|
                #[trigger] final(self).records_at(name, t) == old(self).records_at(name, t) + listed_at(
                    *final(self),
                    records@,
                    name,
                    t,
                ),
    {
        let ghost start = *self;
        let id = self.add_zone_to(domain, kind, default_kind);
        let ghost recs = records@;
        let n: usize = records.len();
        let mut rest = records;
        let mut i: usize = 0;
        assert(rest@ =~= recs.subrange(0, n as int));
        assert forall|nm: Seq<char>, t: RecordType|
            #[trigger] self.records_at(nm, t) == start.records_at(nm, t) + listed_at(*self, recs.take(0), nm, t) by {
            assert(recs.take(0) =~= Seq::<(String, Record)>::empty());
            assert(start.records_at(nm, t) + Seq::<Record>::empty() =~= start.records_at(nm, t));
        }
        let ghost dl = labels_of(domain@);
        let ghost z = *self;
        proof {
            assert forall|k: nat|
                k < dl.len() implies created_has_kind(z, #[trigger] z.follow(dl, k), start.nodes@.len() as int, default_kind) by {
                z.lemma_follow_increasing(dl, k, dl.len());
            }
        }
        while rest.len() > 0
            invariant
                self.wf(),
                z.wf(),
                dl == labels_of(domain@),
                z.follow(dl, dl.len()) == Some(id as int),
                forall|k: nat| k < dl.len() ==> #[trigger] self.follow(dl, k) == z.follow(dl, k),
                forall|k: nat|
                    k < dl.len() ==> created_has_kind(*self, #[trigger] z.follow(dl, k), start.nodes@.len() as int, default_kind),
                i <= n,
                n == recs.len(),
                rest@ == recs.subrange(i as int, n as int),
                self.exact(domain@) == Some(id as int),
                id < self.nodes@.len(),
                self.nodes@[id as int].kind == kind,
                start.journals_sorted() ==> self.journals_sorted(),
                start.typed() ==> self.typed(),
                forall|j: int| 0 <= j < i ==> self.exact((#[trigger] recs[j]).0@) is Some,
                forall|nm: Seq<char>, t: RecordType|
                    #[trigger] self.records_at(nm, t) == start.records_at(nm, t) + listed_at(
                        *self,
                        recs.take(i as int),
                        nm,
                        t,
                    ),
            decreases rest@.len(),
        {
            let ghost before = *self;
            let (owner, record) = rest.remove(0);
            assert(recs[i as int] == (owner, record));
            let ghost rec = record;
            self.add_record_to(owner.as_str(), record, kind);
            proof {
                let after = *self;
                let o = owner@;
                before.lemma_follow_valid(labels_of(domain@), labels_of(domain@).len());
                assert forall|j: int| 0 <= j < i + 1 implies after.exact((#[trigger] recs[j]).0@) is Some by {
                    if j < i {
                        before.lemma_follow_valid(labels_of(recs[j].0@), labels_of(recs[j].0@).len());
                    }
                }
                assert forall|j: int| 0 <= j < recs.take(i as int).len() implies before.exact(
                    (#[trigger] recs.take(i as int)[j]).0@,
                ) is Some by {
                    assert(recs.take(i as int)[j] == recs[j]);
                }
                assert(recs.take(i + 1).drop_last() =~= recs.take(i as int));
                assert(recs.take(i + 1).last() == recs[i as int]);
                before.lemma_follow_valid(labels_of(o), labels_of(o).len());
                assert forall|nm: Seq<char>, t: RecordType|
                    #[trigger] after.records_at(nm, t) == start.records_at(nm, t) + listed_at(after, recs.take(i + 1), nm, t) by {
                    lemma_listed_stable(before, after, recs.take(i as int), nm, t);
                    let prev = listed_at(before, recs.take(i as int), nm, t);
                    assert(before.records_at(nm, t) == start.records_at(nm, t) + prev);
                    before.lemma_follow_valid(labels_of(nm), labels_of(nm).len());
                    if after.exact(nm) == after.exact(o) {
                        assert(before.exact(nm) == before.exact(o));
                        assert(after.records_at(nm, t) == after.records_at(o, t));
                        assert(before.records_at(nm, t) == before.records_at(o, t));
                        if t == rec.spec_type() {
                            assert(start.records_at(nm, t) + prev.push(rec) =~= (start.records_at(nm, t) + prev).push(rec));
                        }
                    } else {
                        assert(after.records_at(nm, t) == before.records_at(nm, t));
                    }
                }
                assert forall|k: nat| k < dl.len() implies #[trigger] after.follow(dl, k) == z.follow(dl, k) by {
                    z.lemma_follow_increasing(dl, k, dl.len());
                    assert(before.follow(dl, k) == z.follow(dl, k));
                }
                assert forall|k: nat|
                    k < dl.len() implies created_has_kind(after, #[trigger] z.follow(dl, k), start.nodes@.len() as int, default_kind) by {
                    z.lemma_follow_increasing(dl, k, dl.len());
                    assert(before.follow(dl, k) == z.follow(dl, k));
                    before.lemma_follow_valid(dl, k);
                }
                assert(rest@ =~= recs.subrange(i + 1, n as int));
            }
            i = i + 1;
        }
        assert(recs.take(n as int) =~= recs);
        proof {
            assert forall|k: nat| k < dl.len() implies created_has_kind(
                *self,
                #[trigger] self.follow(dl, k),
                start.nodes@.len() as int,
                default_kind,
            ) by {
                assert(self.follow(dl, k) == z.follow(dl, k));
            }
            assert forall|nm: Seq<char>, t: RecordType|
                #[trigger] self.records_at(nm, t) == start.records_at(nm, t) + listed_at(*self, recs, nm, t) by {
                assert(self.records_at(nm, t) == start.records_at(nm, t) + listed_at(*self, recs.take(n as int), nm, t));
            }
        }
    }

    /// Appends decoded journal transactions, in order, to the zone named
    /// exactly `domain`; false when there is no such node. A transaction
    /// replaces an earlier one starting at the same serial.
    pub fn register_journal(&mut self, domain: &str, txns: Vec<Txn>) -> (r: bool)
        requires
            old(self).wf(),
            old(self).journals_sorted(),
        ensures
            final(self).wf(),
            final(self).journals_sorted(),
            old(self).typed() ==> final(self).typed(),
            r == old(self).exact(domain@) is Some,
            forall|nm: Seq<char>, t: RecordType| #[trigger] final(self).records_at(nm, t) == old(self).records_at(nm, t),
            r ==> forall|j: int|
                0 <= j < txns@.len() && last_for_serial(txns@, j, txns@.len() as int) ==> final(self).nodes@[old(self).exact(domain@).unwrap()].journal@.contains(#[trigger] txns@[j]),
    {
        let id = match self.get_zone_exact(domain) {
            Some(id) => id,
            None => return false,
        };
        let ghost start = *self;
        let ghost ts = txns@;
        let n: usize = txns.len();
        let mut rest = txns;
        let mut i: usize = 0;
        assert(rest@ =~= ts.subrange(0, n as int));
        while rest.len() > 0
            invariant
                i <= n,
                n == ts.len(),
                rest@ == ts.subrange(i as int, n as int),
                id < start.nodes@.len(),
                self.nodes@.len() == start.nodes@.len(),
                forall|k: int| 0 <= k < self.nodes@.len() && k != id ==> #[trigger] self.nodes@[k] == start.nodes@[k],
                self.nodes@[id as int].sets == start.nodes@[id as int].sets,
                self.nodes@[id as int].children == start.nodes@[id as int].children,
                self.nodes@[id as int].kind == start.nodes@[id as int].kind,
                journal_sorted(self.nodes@[id as int].journal@),
                start.journals_sorted(),
                forall|j: int|
                    0 <= j < i && last_for_serial(ts, j, i as int) ==> self.nodes@[id as int].journal@.contains(
                        #[trigger] ts[j],
                    ),
            decreases rest@.len(),
        {
            let ghost jb = self.nodes@[id as int].journal@;
            let t = rest.remove(0);
            assert(ts[i as int] == t);
            self.nodes[id].add_txn(t);
            proof {
                assert forall|j: int|
                    0 <= j < i + 1 && last_for_serial(ts, j, i + 1) implies self.nodes@[id as int].journal@.contains(
                        #[trigger] ts[j],
                    ) by {
                    if j < i {
                        assert(last_for_serial(ts, j, i as int));
                        assert(ts[i as int].serial_from != ts[j].serial_from);
                        assert(jb.contains(ts[j]));
                    }
                }
                assert(rest@ =~= ts.subrange(i + 1, n as int));
            }
            i = i + 1;
        }
        proof {
            let after = *self;
            assert forall|k: int| 0 <= k < start.nodes@.len() implies children_extend(
                #[trigger] start.nodes@[k].children@,
                after.nodes@[k].children@,
            ) by {
                if k != id {
                    assert(after.nodes@[k] == start.nodes@[k]);
                }
            }
            lemma_paths_kept(start, after);
            assert forall|k: int| 0 <= k < after.nodes@.len() implies after.nodes@[k].children@ == start.nodes@[k].children@ by {
                if k != id {
                    assert(after.nodes@[k] == start.nodes@[k]);
                }
            }
            assert(after.wf());
            assert forall|k: int| 0 <= k < after.nodes@.len() implies children_extend(
                #[trigger] after.nodes@[k].children@,
                start.nodes@[k].children@,
            ) by {}
            lemma_paths_kept(after, start);
            assert forall|nm: Seq<char>, t: RecordType| #[trigger] after.records_at(nm, t) == start.records_at(nm, t) by {
                start.lemma_follow_valid(labels_of(nm), labels_of(nm).len());
                after.lemma_follow_valid(labels_of(nm), labels_of(nm).len());
                if let Some(x) = start.exact(nm) {
                    if x != id {
                        assert(after.nodes@[x] == start.nodes@[x]);
                    }
                }
            }
            if start.typed() {
                assert forall|k: int| 0 <= k < after.nodes@.len() implies (#[trigger] after.nodes@[k]).typed() by {
                    assert(after.nodes@[k].sets == start.nodes@[k].sets);
                    assert(start.nodes@[k].typed());
                }
            }
            assert forall|k: int| 0 <= k < after.nodes@.len() implies journal_sorted(#[trigger] after.nodes@[k].journal@) by {
                if k != id {
                    assert(after.nodes@[k] == start.nodes@[k]);
                }
            }
        }
        true
    }
}

} // verus!
