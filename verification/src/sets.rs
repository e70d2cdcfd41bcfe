//! Sets of node indices and the order in which they are walked.

use std::collections::BTreeSet;
use vstd::prelude::*;
use vstd::std_specs::btree::{increasing_seq, spec_btree_keys_iter};
use vstd::std_specs::cmp::OrdSpec;
use vstd::std_specs::iter::IteratorSpec;

verus! {

/// Whether the entries of `s` grow strictly from left to right.
pub open spec fn strictly_increasing(s: Seq<usize>) -> bool {
    forall|i: int, j: int| 0 <= i < j < s.len() ==> s[i] < s[j]
}

/// Whether `q` lists exactly the members of `s`, smallest first.
pub open spec fn lists_ascending(q: Seq<usize>, s: Set<usize>) -> bool {
    strictly_increasing(q) && q.to_set() == s
}

/// The members of `s`, smallest first.
pub open spec fn ascending(s: Set<usize>) -> Seq<usize> {
    choose|q: Seq<usize>| lists_ascending(q, s)
}

/// A strictly increasing sequence holds no entry twice, and its last entry is
/// its greatest.
pub proof fn lemma_increasing_no_duplicates(q: Seq<usize>)
    requires
        strictly_increasing(q),
    ensures
        q.no_duplicates(),
        q.len() > 0 ==> strictly_increasing(q.drop_last()),
        q.len() > 0 ==> q.drop_last().to_set() == q.to_set().remove(q.last()),
{
    if q.len() > 0 {
        let front = q.drop_last();
        assert forall|x: usize| front.to_set().contains(x) <==> q.to_set().remove(
            q.last(),
        ).contains(x) by {
            if front.to_set().contains(x) {
                let i = choose|i: int| 0 <= i < front.len() && front[i] == x;
                assert(q[i] == x);
            }
            if q.to_set().remove(q.last()).contains(x) {
                let i = choose|i: int| 0 <= i < q.len() && q[i] == x;
                assert(front[i] == x);
            }
        }
        assert(front.to_set() =~= q.to_set().remove(q.last()));
    }
}

/// The members of the first `k + 1` entries are those of the first `k`
/// entries and the entry after them.
pub proof fn lemma_members_of_longer<A>(q: Seq<A>, k: int)
    requires
        0 <= k < q.len(),
    ensures
        q.take(k + 1) == q.take(k).push(q[k]),
        q.take(k + 1).to_set() == q.take(k).to_set().insert(q[k]),
        q.take(k).to_set().finite(),
{
    assert(q.take(k + 1) =~= q.take(k).push(q[k]));
    vstd::seq_lib::seq_to_set_is_finite(q.take(k));
    q.take(k).lemma_push_to_set_commute(q[k]);
}

/// A strictly increasing sequence of numbers below `bound` has at most
/// `bound` entries.
pub proof fn lemma_increasing_fits(q: Seq<usize>, bound: int)
    requires
        0 <= bound,
        strictly_increasing(q),
        forall|i: int| 0 <= i < q.len() ==> #[trigger] q[i] < bound,
    ensures
        q.len() <= bound,
        forall|i: int| 0 <= i < q.len() ==> i <= #[trigger] q[i],
    decreases q.len(),
{
    if q.len() > 0 {
        let front = q.drop_last();
        assert forall|i: int| 0 <= i < front.len() implies #[trigger] front[i] < bound by {
            assert(front[i] == q[i]);
        }
        lemma_increasing_fits(front, bound);
        if q.len() > 1 {
            assert(front[q.len() - 2] == q[q.len() - 2]);
            assert(q[q.len() - 2] < q[q.len() - 1]);
        }
        assert forall|i: int| 0 <= i < q.len() implies i <= #[trigger] q[i] by {
            if i < front.len() {
                assert(front[i] == q[i]);
            }
        }
        assert(q.len() - 1 <= q[q.len() - 1]);
    }
}

/// Two strictly increasing sequences with the same members are the same
/// sequence.
pub proof fn lemma_ascending_unique(a: Seq<usize>, b: Seq<usize>)
    requires
        strictly_increasing(a),
        strictly_increasing(b),
        a.to_set() == b.to_set(),
    ensures
        a == b,
    decreases a.len(),
{
    if a.len() == 0 {
        if b.len() > 0 {
            assert(b.to_set().contains(b[0]));
            let i = choose|i: int| 0 <= i < a.len() && a[i] == b[0];
        }
        assert(a =~= b);
    } else {
        assert(a.to_set().contains(a.last()));
        let j = choose|j: int| 0 <= j < b.len() && b[j] == a.last();
        assert(b.to_set().contains(b.last()));
        let i = choose|i: int| 0 <= i < a.len() && a[i] == b.last();
        assert(a.last() == b.last());
        lemma_increasing_no_duplicates(a);
        lemma_increasing_no_duplicates(b);
        lemma_ascending_unique(a.drop_last(), b.drop_last());
        assert(a =~= a.drop_last().push(a.last()));
        assert(b =~= b.drop_last().push(b.last()));
    }
}

/// A sequence that lists the members of `s` smallest first is the one that
/// `ascending` names.
pub proof fn lemma_ascending_is(q: Seq<usize>, s: Set<usize>)
    requires
        lists_ascending(q, s),
    ensures
        ascending(s) == q,
        s.finite(),
        s.len() == q.len(),
{
    lemma_ascending_unique(ascending(s), q);
    lemma_increasing_no_duplicates(q);
    q.unique_seq_to_set();
}

/// The references that an ordered set hands out in increasing order point at
/// strictly growing numbers.
proof fn lemma_increasing_refs(r: Seq<&usize>)
    requires
        increasing_seq(r),
    ensures
        strictly_increasing(r.unref()),
{
    assert(vstd::laws_cmp::obeys_cmp::<usize>());
    assert(vstd::laws_cmp::obeys_cmp::<&usize>());
    vstd::std_specs::btree::axiom_increasing_seq_meaning::<&usize>(r);
    assert forall|i: int, j: int| 0 <= i < j < r.unref().len() implies r.unref()[i] < r.unref()[j] by {
        assert(OrdSpec::cmp_spec(&r[i], &r[j]) is Less);
    }
}

/// The members of `s`, smallest first.
pub fn sorted_members(s: &BTreeSet<usize>) -> (v: Vec<usize>)
    ensures
        lists_ascending(v@, s@),
        v@ == ascending(s@),
        v@.len() == s@.len(),
        s@.finite(),
{
    let mut v: Vec<usize> = Vec::new();
    for x in it: s.iter()
        invariant
            v@ == it.seq().unref().take(it.index() as int),
    {
        v.push(*x);
    }
    proof {
        let r = spec_btree_keys_iter(s).remaining();
        assert(r.unref().to_set() == s@);
        assert(v@ == r.unref());
        lemma_increasing_refs(r);
        lemma_ascending_is(v@, s@);
    }
    v
}

/// Whether two lists of node indices hold the same indices in the same
/// order.
pub fn same_list(a: &Vec<usize>, b: &Vec<usize>) -> (same: bool)
    ensures
        same == (a@ == b@),
{
    if a.len() != b.len() {
        return false;
    }
    let mut k: usize = 0;
    while k < a.len()
        invariant
            k <= a@.len(),
            a@.len() == b@.len(),
            forall|i: int| 0 <= i < k ==> a@[i] == b@[i],
        decreases a@.len() - k,
    {
        if a[k] != b[k] {
            return false;
        }
        k += 1;
    }
    assert(a@ =~= b@);
    true
}

/// The set of the nodes of a network of `count` nodes other than `node`.
pub fn all_but(count: usize, node: usize) -> (rest: BTreeSet<usize>)
    ensures
        rest@ == Set::new(|x: usize| x < count && x != node),
{
    let mut rest: BTreeSet<usize> = BTreeSet::new();
    let mut x: usize = 0;
    while x < count
        invariant
            x <= count,
            rest@ == Set::new(|y: usize| y < x && y != node),
        decreases count - x,
    {
        if x != node {
            rest.insert(x);
        }
        proof {
            assert(rest@ =~= Set::new(|y: usize| y < x + 1 && y != node));
        }
        x += 1;
    }
    rest
}

/// The nodes listed in `listed` without `node`, in the same order.
pub fn list_without(listed: &Vec<usize>, node: usize) -> (rest: Vec<usize>)
    requires
        strictly_increasing(listed@),
    ensures
        strictly_increasing(rest@),
        rest@.to_set() == listed@.to_set().remove(node),
{
    let mut rest: Vec<usize> = Vec::new();
    let mut k: usize = 0;
    while k < listed.len()
        invariant
            k <= listed@.len(),
            strictly_increasing(listed@),
            strictly_increasing(rest@),
            rest@.to_set() == listed@.take(k as int).to_set().remove(node),
            forall|i: int| 0 <= i < rest@.len() && k < listed@.len() ==> #[trigger] rest@[i] < listed@[k as int],
        decreases listed@.len() - k,
    {
        let ghost before = rest@;
        if listed[k] != node {
            rest.push(listed[k]);
        }
        proof {
            let x = listed@[k as int];
            lemma_members_of_longer(listed@, k as int);
            if x != node {
                assert(rest@ =~= before.push(x));
                vstd::seq_lib::seq_to_set_is_finite(before);
                before.lemma_push_to_set_commute(x);
            }
            assert(rest@.to_set() =~= listed@.take(k + 1).to_set().remove(node));
        }
        k += 1;
    }
    assert(listed@.take(k as int) =~= listed@);
    rest
}

/// The set of the nodes listed in `listed`.
pub fn set_of(listed: &Vec<usize>) -> (set: BTreeSet<usize>)
    ensures
        set@ == listed@.to_set(),
{
    let mut set: BTreeSet<usize> = BTreeSet::new();
    let mut k: usize = 0;
    while k < listed.len()
        invariant
            k <= listed@.len(),
            set@ == listed@.take(k as int).to_set(),
        decreases listed@.len() - k,
    {
        set.insert(listed[k]);
        proof {
            lemma_members_of_longer(listed@, k as int);
        }
        k += 1;
    }
    assert(listed@.take(k as int) =~= listed@);
    set
}

} // verus!
