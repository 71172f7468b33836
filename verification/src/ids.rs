//! Small operations on lists of slot ids.

use vstd::prelude::*;
use crate::model::other_than;

verus! {

/// Whether `id` occurs in `list`.
pub(crate) fn contains_id(list: &Vec<usize>, id: usize) -> (found: bool)
    ensures
        found == list@.contains(id),
{
    let mut i: usize = 0;
    while i < list.len()
        invariant
            i <= list@.len(),
            forall|j: int| 0 <= j < i ==> list@[j] != id,
        decreases list@.len() - i,
    {
        if list[i] == id {
            return true;
        }
        i += 1;
    }
    false
}

/// Whether two lists hold the same numbers in the same order.
pub(crate) fn same_ids(a: &Vec<usize>, b: &Vec<usize>) -> (same: bool)
    ensures
        same == (a@ == b@),
{
    if a.len() != b.len() {
        return false;
    }
    let mut i: usize = 0;
    while i < a.len()
        invariant
            a@.len() == b@.len(),
            i <= a@.len(),
            forall|j: int| 0 <= j < i ==> a@[j] == b@[j],
        decreases a@.len() - i,
    {
        if a[i] != b[i] {
            return false;
        }
        i += 1;
    }
    assert(a@ =~= b@);
    true
}

/// Appends the numbers of `more` to `list`.
pub(crate) fn append_ids(list: &mut Vec<usize>, more: &Vec<usize>)
    ensures
        final(list)@ == old(list)@ + more@,
{
    let mut i: usize = 0;
    while i < more.len()
        invariant
            i <= more@.len(),
            list@ == old(list)@ + more@.subrange(0, i as int),
        decreases more@.len() - i,
    {
        list.push(more[i]);
        i += 1;
        assert(list@ =~= old(list)@ + more@.subrange(0, i as int));
    }
    assert(more@.subrange(0, more@.len() as int) =~= more@);
}

/// Removes every occurrence of `id` from `list`, keeping the order of the
/// rest.
pub(crate) fn remove_id(list: &mut Vec<usize>, id: usize)
    ensures
        final(list)@ == old(list)@.filter(other_than(id)),
{
    let keep = Ghost(other_than(id));
    let mut kept: Vec<usize> = Vec::new();
    let mut i: usize = 0;
    assert(list@.subrange(0, 0) =~= Seq::<usize>::empty());
    while i < list.len()
        invariant
            i <= list@.len(),
            list@ == old(list)@,
            keep@ == other_than(id),
            kept@ == list@.subrange(0, i as int).filter(keep@),
        decreases list@.len() - i,
    {
        let x = list[i];
        proof {
            let before = list@.subrange(0, i as int);
            let after = list@.subrange(0, i + 1);
            assert(after.drop_last() =~= before);
            assert(after.last() == x);
            reveal(Seq::filter);
        }
        if x != id {
            kept.push(x);
        }
        i += 1;
    }
    assert(list@.subrange(0, list@.len() as int) =~= list@);
    *list = kept;
}

/// A list of distinct numbers below `bound` has at most `bound` entries.
pub proof fn lemma_distinct_below(s: Seq<usize>, bound: nat)
    requires
        s.no_duplicates(),
        forall|i: int| 0 <= i < s.len() ==> #[trigger] s[i] < bound,
    ensures
        s.len() <= bound,
    decreases bound,
{
    broadcast use vstd::seq_lib::group_filter_ensures;

    if s.len() > 0 {
        if bound == 0 {
            assert(s[0] < bound);
        } else {
            let top = (bound - 1) as usize;
            let rest = s.filter(other_than(top));
            lemma_filter_keeps_distinct(s, top);
            assert forall|i: int| 0 <= i < rest.len() implies #[trigger] rest[i] < bound - 1 by {
                assert(s.contains(rest[i]));
            }
            lemma_distinct_below(rest, (bound - 1) as nat);
        }
    }
}

/// Dropping a value from a list of distinct values leaves distinct values,
/// and shortens the list by at most one.
pub proof fn lemma_filter_keeps_distinct(s: Seq<usize>, x: usize)
    requires
        s.no_duplicates(),
    ensures
        s.filter(other_than(x)).no_duplicates(),
        s.filter(other_than(x)).len() == s.len() - (if s.contains(x) {
            1int
        } else {
            0int
        }),
        !s.filter(other_than(x)).contains(x),
        forall|y: usize| y != x ==> (s.filter(other_than(x)).contains(y) <==> s.contains(y)),
    decreases s.len(),
{
    broadcast use vstd::seq_lib::group_filter_ensures;

    let keep = other_than(x);
    reveal(Seq::filter);
    if s.len() > 0 {
        let front = s.drop_last();
        lemma_filter_keeps_distinct(front, x);
        let kept = front.filter(keep);
        assert(s.filter(keep) == if keep(s.last()) {
            kept.push(s.last())
        } else {
            kept
        });
        if keep(s.last()) {
            assert(!kept.contains(s.last())) by {
                if kept.contains(s.last()) {
                    assert(front.contains(s.last()));
                }
            }
            assert(s.contains(x) <==> front.contains(x)) by {
                if s.contains(x) {
                    let i = choose|i: int| 0 <= i < s.len() && s[i] == x;
                    assert(front[i] == x);
                }
                if front.contains(x) {
                    let i = choose|i: int| 0 <= i < front.len() && front[i] == x;
                    assert(s[i] == x);
                }
            }
        } else {
            assert(s.last() == x);
            assert(s[s.len() - 1] == x);
            assert(!front.contains(x)) by {
                if front.contains(x) {
                    let i = choose|i: int| 0 <= i < front.len() && front[i] == x;
                    assert(s[i] == x);
                }
            }
        }
        assert forall|y: usize| y != x implies (s.filter(keep).contains(y) <==> s.contains(
            y,
        )) by {
            if s.contains(y) {
                let i = choose|i: int| 0 <= i < s.len() && s[i] == y;
                if i < s.len() - 1 {
                    assert(front[i] == y);
                    assert(front.contains(y));
                } else {
                    assert(s.filter(keep).last() == y);
                }
            }
            if s.filter(keep).contains(y) {
                if kept.contains(y) {
                    assert(front.contains(y));
                    let i = choose|i: int| 0 <= i < front.len() && front[i] == y;
                    assert(s[i] == y);
                } else {
                    assert(y == s.last());
                }
            }
        }
    }
}

} // verus!
