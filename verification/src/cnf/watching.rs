use vstd::prelude::*;

use super::variable::{last_position, lemma_last_position, without_last};
use super::valuation::same_assignment;
use super::{Literal, Variable};

verus! {

/// The clause `cid` stands in the list that `vars[v]` keeps for the sign `n`.
pub open(crate) spec fn holds(vars: Seq<Variable>, cid: usize, v: int, n: bool) -> bool {
    vars[v].watchlist(n).contains(cid)
}

/// The place of a literal among the watch lists: its variable and its sign.
pub open(crate) spec fn place(lit: Literal) -> (int, bool) {
    (lit.var(), lit.spec_negated())
}

/// The lists that hold the clause `cid` are exactly those at the places `at`.
pub open(crate) spec fn links_are(vars: Seq<Variable>, cid: usize, at: Set<(int, bool)>) -> bool {
    forall|v: int, n: bool|
        0 <= v < vars.len() ==> (#[trigger] holds(vars, cid, v, n) <==> at.contains((v, n)))
}

/// No list holds the clause `cid`.
pub open(crate) spec fn unlinked(vars: Seq<Variable>, cid: usize) -> bool {
    forall|v: int, n: bool| 0 <= v < vars.len() ==> !#[trigger] holds(vars, cid, v, n)
}

/// No list holds a clause twice.
pub open(crate) spec fn lists_distinct(vars: Seq<Variable>) -> bool {
    forall|v: int, n: bool|
        0 <= v < vars.len() ==> (#[trigger] vars[v].watchlist(n)).no_duplicates()
}

/// Every clause but `cid` stands in the same lists before and after.
pub open(crate) spec fn other_links_kept(a: Seq<Variable>, b: Seq<Variable>, cid: usize) -> bool {
    forall|c: usize, v: int, n: bool|
        #![trigger holds(a, c, v, n)]
        #![trigger holds(b, c, v, n)]
        c != cid && 0 <= v < a.len() ==> holds(a, c, v, n) == holds(b, c, v, n)
}

/// No list has gained more than one clause.
pub open(crate) spec fn lists_grown(a: Seq<Variable>, b: Seq<Variable>) -> bool {
    forall|v: int, n: bool|
        0 <= v < a.len() ==> (#[trigger] b[v].watchlist(n)).len() <= a[v].watchlist(n).len() + 1
}

/// The list is as it was, or has lost its last `cid`.
pub open(crate) spec fn kept_or_cut(before: Seq<usize>, after: Seq<usize>, cid: usize) -> bool {
    after == before || (before.contains(cid) && after == without_last(before, cid))
}

/// What taking a clause out of a list without repetitions leaves.
pub proof fn lemma_without_last(list: Seq<usize>, cid: usize)
    requires
        list.no_duplicates(),
        list.contains(cid),
    ensures
        without_last(list, cid).no_duplicates(),
        !without_last(list, cid).contains(cid),
        without_last(list, cid).len() == list.len() - 1,
        forall|c: usize| c != cid ==> without_last(list, cid).contains(c) == list.contains(c),
        forall|k: int|
            0 <= k < list.len() && list[k] == cid ==> last_position(list, cid) == k,
        forall|k: int|
            0 <= k < last_position(list, cid) ==> without_last(list, cid)[k] == list[k],
{
    lemma_last_position(list, cid);
    let p = last_position(list, cid);
    let r = without_last(list, cid);
    assert(r.len() == list.len() - 1);
    assert forall|i: int, j: int| 0 <= i < r.len() && 0 <= j < r.len() && i != j implies r[i]
        != r[j] by {
        let ii = if i == p { list.len() - 1 } else { i };
        let jj = if j == p { list.len() - 1 } else { j };
        assert(r[i] == list[ii]);
        assert(r[j] == list[jj]);
    }
    assert forall|c: usize| c != cid implies r.contains(c) == list.contains(c) by {
        if r.contains(c) {
            let i = choose|i: int| 0 <= i < r.len() && r[i] == c;
            let ii = if i == p { list.len() - 1 } else { i };
            assert(list[ii] == c);
        }
        if list.contains(c) {
            let i = choose|i: int| 0 <= i < list.len() && list[i] == c;
            let ii = if i == list.len() - 1 { p } else { i };
            assert(r[ii] == c);
        }
    }
    if r.contains(cid) {
        let i = choose|i: int| 0 <= i < r.len() && r[i] == cid;
        let ii = if i == p { list.len() - 1 } else { i };
        assert(list[ii] == cid);
        assert(ii != p);
    }
}

/// What adding a clause to a list that does not hold it gives.
pub proof fn lemma_pushed(list: Seq<usize>, cid: usize)
    requires
        list.no_duplicates(),
        !list.contains(cid),
    ensures
        list.push(cid).no_duplicates(),
        list.push(cid).contains(cid),
        forall|c: usize| c != cid ==> list.push(cid).contains(c) == list.contains(c),
        without_last(list.push(cid), cid) == list,
{
    let r = list.push(cid);
    assert(r[list.len() as int] == cid);
    assert forall|c: usize| c != cid implies r.contains(c) == list.contains(c) by {
        if r.contains(c) {
            let i = choose|i: int| 0 <= i < r.len() && r[i] == c;
            assert(list[i] == c);
        }
        if list.contains(c) {
            let i = choose|i: int| 0 <= i < list.len() && list[i] == c;
            assert(r[i] == c);
        }
    }
    assert(last_position(r, cid) == list.len());
    assert(without_last(r, cid) =~= list);
}

/// Adds the clause `cid` to the list of `lit`.
pub(crate) fn link(variables: &mut Vec<Variable>, lit: Literal, cid: usize, Ghost(at): Ghost<Set<(int, bool)>>)
    requires
        lit.var() < old(variables)@.len(),
        links_are(old(variables)@, cid, at),
        !at.contains(place(lit)),
        lists_distinct(old(variables)@),
    ensures
        same_assignment(final(variables)@, old(variables)@),
        links_are(final(variables)@, cid, at.insert(place(lit))),
        lists_distinct(final(variables)@),
        other_links_kept(old(variables)@, final(variables)@, cid),
        forall|v: int, n: bool|
            0 <= v < old(variables)@.len() && (v, n) != place(lit) ==> (#[trigger] final(
                variables
            )@[v].watchlist(n)) == old(variables)@[v].watchlist(n),
        final(variables)@[lit.var()].watchlist(lit.spec_negated()) == old(variables)@[lit.var()].watchlist(
            lit.spec_negated(),
        ).push(cid),
{
    let v = lit.id().to_usize();
    let n = lit.negated();
    proof {
        assert(!holds(variables@, cid, v as int, n));
        assert(variables@[v as int].watchlist(n).no_duplicates());
        lemma_pushed(variables@[v as int].watchlist(n), cid);
    }
    variables[v].watch(cid, n);
    proof {
        let a = old(variables)@;
        let b = variables@;
        assert forall|u: int, m: bool| 0 <= u < b.len() implies (#[trigger] holds(b, cid, u, m)
            <==> at.insert(place(lit)).contains((u, m))) by {
            assert(holds(a, cid, u, m) <==> at.contains((u, m)));
        }
        assert forall|u: int, m: bool| 0 <= u < b.len() implies (#[trigger] b[u].watchlist(
            m,
        )).no_duplicates() by {
            assert(a[u].watchlist(m).no_duplicates());
        }
    }
}

/// Takes the clause `cid` out of the list of `lit`.
pub(crate) fn unlink(variables: &mut Vec<Variable>, lit: Literal, cid: usize, Ghost(at): Ghost<Set<(int, bool)>>)
    requires
        lit.var() < old(variables)@.len(),
        links_are(old(variables)@, cid, at),
        at.contains(place(lit)),
        lists_distinct(old(variables)@),
    ensures
        same_assignment(final(variables)@, old(variables)@),
        links_are(final(variables)@, cid, at.remove(place(lit))),
        lists_distinct(final(variables)@),
        other_links_kept(old(variables)@, final(variables)@, cid),
        forall|v: int, n: bool|
            0 <= v < old(variables)@.len() && (v, n) != place(lit) ==> (#[trigger] final(
                variables
            )@[v].watchlist(n)) == old(variables)@[v].watchlist(n),
        final(variables)@[lit.var()].watchlist(lit.spec_negated()) == without_last(
            old(variables)@[lit.var()].watchlist(lit.spec_negated()),
            cid,
        ),
{
    let v = lit.id().to_usize();
    let n = lit.negated();
    proof {
        assert(holds(variables@, cid, v as int, n));
        assert(variables@[v as int].watchlist(n).no_duplicates());
        lemma_without_last(variables@[v as int].watchlist(n), cid);
    }
    variables[v].unwatch(cid, n);
    proof {
        let a = old(variables)@;
        let b = variables@;
        assert forall|u: int, m: bool| 0 <= u < b.len() implies (#[trigger] holds(b, cid, u, m)
            <==> at.remove(place(lit)).contains((u, m))) by {
            assert(holds(a, cid, u, m) <==> at.contains((u, m)));
        }
        assert forall|u: int, m: bool| 0 <= u < b.len() implies (#[trigger] b[u].watchlist(
            m,
        )).no_duplicates() by {
            assert(a[u].watchlist(m).no_duplicates());
        }
    }
}

} // verus!
