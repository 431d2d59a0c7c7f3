//! Domain names: trimming, splitting into labels and stripping leading
//! labels, each stated over the characters of the name.
use vstd::prelude::*;

verus! {

/// The name without its trailing dots.
pub open spec fn trim_dots(s: Seq<char>) -> Seq<char>
    decreases s.len(),
{
    if s.len() > 0 && s.last() == '.' {
        trim_dots(s.drop_last())
    } else {
        s
    }
}

/// The pieces of `s` between dots, in order; a string with no dot is one
/// piece, and the empty string is one empty piece.
pub open spec fn split_dots(s: Seq<char>) -> Seq<Seq<char>>
    decreases s.len(),
{
    if s.len() == 0 {
        seq![Seq::empty()]
    } else {
        let p = split_dots(s.drop_last());
        if s.last() == '.' {
            p.push(Seq::empty())
        } else {
            p.update(p.len() - 1, p.last().push(s.last()))
        }
    }
}

/// The labels of a domain name, leftmost first, trailing dots ignored.
pub open spec fn labels_of(name: Seq<char>) -> Seq<Seq<char>> {
    split_dots(trim_dots(name))
}

/// The name with its first label and the dot after it removed; a name
/// without a dot becomes empty.
pub open spec fn strip_label(s: Seq<char>) -> Seq<char>
    decreases s.len(),
{
    if s.len() == 0 {
        s
    } else if s[0] == '.' {
        s.subrange(1, s.len() as int)
    } else {
        strip_label(s.subrange(1, s.len() as int))
    }
}

/// The name with its first `n` labels removed: the name of an enclosing zone.
pub open spec fn strip_labels(s: Seq<char>, n: nat) -> Seq<char>
    decreases n,
{
    if n == 0 {
        s
    } else {
        strip_labels(strip_label(s), (n - 1) as nat)
    }
}

/// An owner name built from a label and the name of the enclosing node;
/// the empty label stands for the enclosing node itself.
pub open spec fn child_name(apex: Seq<char>, label: Seq<char>) -> Seq<char> {
    if label.len() == 0 {
        apex
    } else {
        label + seq!['.'] + apex
    }
}

pub proof fn lemma_split_dots_nonempty(s: Seq<char>)
    ensures
        split_dots(s).len() >= 1,
    decreases s.len(),
{
    if s.len() > 0 {
        lemma_split_dots_nonempty(s.drop_last());
    }
}

/// Relies on rlibdns's `to_fqdn`: the apex itself for an empty child label,
/// else the label, a dot and the apex.
#[verifier::external_body]
fn to_fqdn(apex: &str, child: &str) -> (r: String)
    ensures
        r@ == child_name(apex@, child@),
{
    rlibdns::utils::fqdn_utils::to_fqdn(apex, child)
}

/// The owner name of a child node labelled `label` below the node named
/// `apex`.
pub fn join_label(apex: &String, label: &String) -> (r: String)
    ensures
        r@ == child_name(apex@, label@),
{
    to_fqdn(apex.as_str(), label.as_str())
}

/// The position just past the last character of `name` that is not a
/// trailing dot.
fn trimmed_len(name: &str) -> (end: usize)
    ensures
        end <= name@.len(),
        trim_dots(name@) == name@.subrange(0, end as int),
{
    let n = name.unicode_len();
    let mut end: usize = n;
    assert(name@.subrange(0, n as int) =~= name@);
    while end > 0 && name.get_char(end - 1) == '.'
        invariant
            end <= n,
            n == name@.len(),
            trim_dots(name@) == trim_dots(name@.subrange(0, end as int)),
        decreases end,
    {
        let ghost t = name@.subrange(0, end as int);
        assert(t.drop_last() =~= name@.subrange(0, end - 1));
        end = end - 1;
    }
    assert(trim_dots(name@.subrange(0, end as int)) == name@.subrange(0, end as int));
    end
}

/// Splits a name into its labels, leftmost first, ignoring trailing dots.
pub fn name_labels(name: &str) -> (r: Vec<String>)
    ensures
        r@.map_values(|l: String| l@) == labels_of(name@),
        r@.len() >= 1,
{
    let end = trimmed_len(name);
    let ghost t = name@.subrange(0, end as int);
    let mut parts: Vec<String> = Vec::new();
    let mut start: usize = 0;
    let mut i: usize = 0;
    assert(t.subrange(0, 0) =~= Seq::<char>::empty());
    assert(parts@.map_values(|l: String| l@) =~= Seq::<Seq<char>>::empty());
    assert(split_dots(t.subrange(0, 0)) == seq![Seq::<char>::empty()]);
    assert(parts@.map_values(|l: String| l@).push(t.subrange(0, 0)) =~= seq![Seq::<char>::empty()]);
    while i < end
        invariant
            start <= i <= end,
            end <= name@.len(),
            t == name@.subrange(0, end as int),
            parts@.map_values(|l: String| l@).push(t.subrange(start as int, i as int))
                == split_dots(t.subrange(0, i as int)),
        decreases end - i,
    {
        let ghost before = parts@.map_values(|l: String| l@);
        let c = name.get_char(i);
        assert(t.subrange(0, i + 1).drop_last() =~= t.subrange(0, i as int));
        assert(t.subrange(0, i + 1).last() == c);
        if c == '.' {
            let piece = name.substring_char(start, i).to_owned();
            assert(piece@ =~= t.subrange(start as int, i as int));
            parts.push(piece);
            start = i + 1;
            assert(parts@.map_values(|l: String| l@) =~= before.push(piece@));
            assert(t.subrange(start as int, i + 1) =~= Seq::<char>::empty());
        } else {
            assert(t.subrange(start as int, i + 1) =~= t.subrange(start as int, i as int).push(c));
            assert(before.push(t.subrange(start as int, i as int)).update(before.len() as int, t.subrange(start as int, i + 1))
                =~= before.push(t.subrange(start as int, i + 1)));
        }
        i = i + 1;
    }
    let last = name.substring_char(start, end).to_owned();
    let ghost before = parts@.map_values(|l: String| l@);
    assert(last@ =~= t.subrange(start as int, end as int));
    parts.push(last);
    assert(parts@.map_values(|l: String| l@) =~= before.push(last@));
    assert(t.subrange(0, end as int) =~= t);
    assert(parts@.map_values(|l: String| l@) == split_dots(t));
    assert(labels_of(name@) == split_dots(t));
    parts
}

/// Removes the first label of a name and the dot after it.
pub fn strip_first_label(s: &str) -> (r: String)
    ensures
        r@ == strip_label(s@),
{
    let n = s.unicode_len();
    let mut i: usize = 0;
    assert(s@.subrange(0, n as int) =~= s@);
    while i < n
        invariant
            i <= n,
            n == s@.len(),
            strip_label(s@) == strip_label(s@.subrange(i as int, n as int)),
            forall|j: int| 0 <= j < i ==> s@[j] != '.',
        decreases n - i,
    {
        let ghost rest = s@.subrange(i as int, n as int);
        if s.get_char(i) == '.' {
            let r = s.substring_char(i + 1, n).to_owned();
            assert(rest.subrange(1, rest.len() as int) =~= s@.subrange(i + 1, n as int));
            return r;
        }
        assert(rest.subrange(1, rest.len() as int) =~= s@.subrange(i + 1, n as int));
        i = i + 1;
    }
    assert(s@.subrange(n as int, n as int) =~= Seq::<char>::empty());
    String::new()
}

/// Removes the first `n` labels of a name.
pub fn strip_leading_labels(s: &String, n: usize) -> (r: String)
    ensures
        r@ == strip_labels(s@, n as nat),
{
    let mut cur = s.clone();
    let mut k: usize = 0;
    while k < n
        invariant
            k <= n,
            strip_labels(s@, n as nat) == strip_labels(cur@, (n - k) as nat),
        decreases n - k,
    {
        cur = strip_first_label(cur.as_str());
        k = k + 1;
    }
    cur
}

/// The labels joined with dots.
pub open spec fn join_dots(parts: Seq<Seq<char>>) -> Seq<char>
    decreases parts.len(),
{
    if parts.len() == 0 {
        Seq::empty()
    } else if parts.len() == 1 {
        parts[0]
    } else {
        join_dots(parts.drop_last()) + seq!['.'] + parts.last()
    }
}

/// A name split into the labels left of its last two and those last two
/// labels, each part joined with dots; "@" stands for no labels, and a name
/// of fewer than two labels is kept whole.
pub open spec fn spec_split_domain(name: Seq<char>) -> (Seq<char>, Seq<char>) {
    let parts = labels_of(name);
    let n = parts.len();
    if n < 2 {
        (seq!['@'], name)
    } else {
        (
            if n == 2 {
                seq!['@']
            } else {
                join_dots(parts.take(n - 2))
            },
            join_dots(parts.subrange(n - 2, n as int)),
        )
    }
}

/// Joins `parts[from..to]` with dots.
fn join_range(parts: &Vec<String>, from: usize, to: usize) -> (r: String)
    requires
        from <= to <= parts@.len(),
    ensures
        r@ == join_dots(parts@.map_values(|l: String| l@).subrange(from as int, to as int)),
{
    let ghost lv = parts@.map_values(|l: String| l@);
    let mut r = String::new();
    if from == to {
        assert(lv.subrange(from as int, to as int) =~= Seq::<Seq<char>>::empty());
        return r;
    }
    r.append(parts[from].as_str());
    assert(lv.subrange(from as int, from + 1) =~= seq![lv[from as int]]);
    assert(r@ =~= lv[from as int]);
    let mut i: usize = from + 1;
    while i < to
        invariant
            from < i <= to,
            to <= parts@.len(),
            lv == parts@.map_values(|l: String| l@),
            r@ == join_dots(lv.subrange(from as int, i as int)),
        decreases to - i,
    {
        r.append(".");
        r.append(parts[i].as_str());
        proof {
            reveal_strlit(".");
            assert(lv.subrange(from as int, i + 1).drop_last() =~= lv.subrange(from as int, i as int));
        }
        assert(r@ =~= join_dots(lv.subrange(from as int, i + 1)));
        i = i + 1;
    }
    r
}

/// Splits a name into the part left of its last two labels ("@" when there
/// is none) and those two labels; a name of fewer than two labels comes
/// back whole with "@".
pub fn split_domain(name: &str) -> (r: Option<(String, String)>)
    ensures
        r matches Some((left, right)) && (left@, right@) == spec_split_domain(name@),
{
    let parts = name_labels(name);
    let ghost lv = parts@.map_values(|l: String| l@);
    proof {
        reveal_strlit("@");
    }
    let n = parts.len();
    if n < 2 {
        let at = "@".to_owned();
        assert(at@ =~= seq!['@']);
        return Some((at, name.to_owned()));
    }
    let right = join_range(&parts, n - 2, n);
    let left = if n == 2 {
        let at = "@".to_owned();
        assert(at@ =~= seq!['@']);
        at
    } else {
        let l = join_range(&parts, 0, n - 2);
        assert(lv.subrange(0, n - 2) =~= lv.take(n - 2));
        l
    };
    Some((left, right))
}

} // verus!
