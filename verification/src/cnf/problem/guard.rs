use vstd::prelude::*;

use super::solve::unwound;
use super::{entry_ok, on_trail, trail_ok};
use crate::cnf::logic::{clause_holds, lit_holds};
use crate::cnf::clause::{lemma_anchored_same, lemma_fixed_true_same, lemma_guarded_same};
use crate::cnf::valuation::{
    all_at_zero, deepest_assigned, lit_assigned, lit_depth, lit_false, lit_true, same_assignment,
};
use crate::cnf::watching::{holds, other_links_kept, place};
use crate::cnf::{Clause, Literal, Variable, VariableId};

verus! {

/// The clause stands in the lists of its watched literals, or it holds a
/// literal that is true at depth 0 and needs no watching.
pub open(crate) spec fn has_home(clause: Clause, cid: usize, vars: Seq<Variable>) -> bool {
    clause.linked(cid, vars) || clause.fixed_true(vars)
}

/// The literal has become false, and the clause `cid` that watches it has
/// not been looked at since: the literal's variable stands on the trail
/// behind the place `ai` that is being worked on, or at that place while the
/// clause is not among those `done`.
pub open(crate) spec fn waits(
    vars: Seq<Variable>,
    trail: Seq<VariableId>,
    place: Seq<int>,
    lit: Literal,
    cid: usize,
    ai: int,
    done: Set<usize>,
) -> bool {
    &&& lit_false(vars, lit)
    &&& on_trail(trail, place, lit.var())
    &&& (place[lit.var()] > ai || (place[lit.var()] == ai && !done.contains(cid)))
}

/// What holds of the clause `c` while consequences are worked out: it has
/// its home; it is guarded, or waits to be looked at for its second watched
/// literal; it is anchored, or waits to be looked at for its first.
pub open(crate) spec fn flowing_at(
    vars: Seq<Variable>,
    clauses: Seq<Clause>,
    trail: Seq<VariableId>,
    place: Seq<int>,
    ai: int,
    done: Set<usize>,
    c: int,
) -> bool {
    let clause = clauses[c];
    let cid = c as usize;
    &&& has_home(clause, cid, vars)
    &&& (clause.guarded(vars) || (clause.linked(cid, vars) && waits(
        vars,
        trail,
        place,
        clause.lit1(),
        cid,
        ai,
        done,
    )))
    &&& (clause.anchored(vars) || (clause.linked(cid, vars) && waits(
        vars,
        trail,
        place,
        clause.lit0(),
        cid,
        ai,
        done,
    )))
}

/// What holds of all clauses while consequences are worked out.
pub open(crate) spec fn flowing(
    vars: Seq<Variable>,
    clauses: Seq<Clause>,
    trail: Seq<VariableId>,
    place: Seq<int>,
    ai: int,
    done: Set<usize>,
) -> bool {
    forall|c: int| 0 <= c < clauses.len() ==> #[trigger] flowing_at(vars, clauses, trail, place, ai, done, c)
}

/// What holds of the clause `c` when all consequences are worked out.
pub open(crate) spec fn quiet_at(vars: Seq<Variable>, clauses: Seq<Clause>, c: int) -> bool {
    &&& has_home(clauses[c], c as usize, vars)
    &&& clauses[c].guarded(vars)
    &&& clauses[c].anchored(vars)
}

/// What holds of all clauses when all consequences are worked out: each has
/// its home, is guarded and is anchored.
pub open(crate) spec fn quiet(vars: Seq<Variable>, clauses: Seq<Clause>) -> bool {
    forall|c: int| 0 <= c < clauses.len() ==> #[trigger] quiet_at(vars, clauses, c)
}

/// What holds of the clause `c` after a conflict at the depth `depth`.
pub open(crate) spec fn stirred_at(vars: Seq<Variable>, clauses: Seq<Clause>, depth: usize, c: int) -> bool {
    &&& has_home(clauses[c], c as usize, vars)
    &&& (clauses[c].guarded(vars) || (lit_false(vars, clauses[c].lit1()) && lit_depth(
        vars,
        clauses[c].lit1(),
    ) == depth))
    &&& (clauses[c].anchored(vars) || depth == 0)
}

/// What holds of all clauses after a conflict: a clause that is not guarded
/// has its second watched literal at the depth of the conflict.
pub open(crate) spec fn stirred(vars: Seq<Variable>, clauses: Seq<Clause>, depth: usize) -> bool {
    forall|c: int| 0 <= c < clauses.len() ==> #[trigger] stirred_at(vars, clauses, depth, c)
}

/// Whether a clause is guarded, anchored and at home depends on its
/// literals, on what it watches, on the values and on its own links.
pub(crate) proof fn lemma_home_same(a: Clause, b: Clause, cid: usize, va: Seq<Variable>, vb: Seq<Variable>)
    requires
        a.lits() == b.lits(),
        a.w0() == b.w0(),
        a.w1() == b.w1(),
        a.wf(va.len()),
        same_assignment(va, vb),
        forall|v: int, n: bool| 0 <= v < va.len() ==> #[trigger] holds(va, cid, v, n) == holds(vb, cid, v, n),
    ensures
        a.guarded(va) == b.guarded(vb),
        a.anchored(va) == b.anchored(vb),
        a.fixed_true(va) == b.fixed_true(vb),
        a.linked(cid, va) == b.linked(cid, vb),
        has_home(a, cid, va) == has_home(b, cid, vb),
{
    assert(a.lit0() == b.lit0());
    assert(a.lit1() == b.lit1());
    lemma_guarded_same(a, b, va, vb);
    lemma_anchored_same(a, b, va, vb);
    lemma_fixed_true_same(a, b, va, vb);
    let at = set![place(a.lit0()), place(a.lit1())];
    if a.linked(cid, va) {
        assert forall|v: int, n: bool| 0 <= v < vb.len() implies (#[trigger] holds(vb, cid, v, n)
            <==> at.contains((v, n))) by {
            assert(holds(va, cid, v, n) == holds(vb, cid, v, n));
        }
    }
    if b.linked(cid, vb) {
        assert forall|v: int, n: bool| 0 <= v < va.len() implies (#[trigger] holds(va, cid, v, n)
            <==> at.contains((v, n))) by {
            assert(holds(va, cid, v, n) == holds(vb, cid, v, n));
        }
    }
}

/// When all of the trail has been worked on, the clauses are quiet.
pub(crate) proof fn lemma_flowed(
    vars: Seq<Variable>,
    clauses: Seq<Clause>,
    trail: Seq<VariableId>,
    place: Seq<int>,
    done: Set<usize>,
)
    requires
        flowing(vars, clauses, trail, place, trail.len() as int, done),
    ensures
        quiet(vars, clauses),
{
    assert forall|c: int| 0 <= c < clauses.len() implies #[trigger] quiet_at(vars, clauses, c) by {
        assert(flowing_at(vars, clauses, trail, place, trail.len() as int, done, c));
    }
}

/// When the clauses that watch the variable at `ai` have all been looked
/// at, the work moves on to the next place of the trail.
pub(crate) proof fn lemma_flow_on(
    vars: Seq<Variable>,
    clauses: Seq<Clause>,
    trail: Seq<VariableId>,
    place: Seq<int>,
    ai: int,
    done: Set<usize>,
    list: Seq<usize>,
)
    requires
        flowing(vars, clauses, trail, place, ai, done),
        0 <= ai < trail.len(),
        clauses.len() <= usize::MAX,
        trail[ai].0 < vars.len(),
        vars[trail[ai].0 as int].assigned(),
        list == vars[trail[ai].0 as int].watchlist(vars[trail[ai].0 as int].value),
        forall|k: int| 0 <= k < list.len() ==> done.contains(#[trigger] list[k]),
        forall|i: int| 0 <= i < trail.len() ==> place[(#[trigger] trail[i]).0 as int] == i,
        forall|c: int| 0 <= c < clauses.len() ==> (#[trigger] clauses[c]).wf(vars.len()),
    ensures
        flowing(vars, clauses, trail, place, ai + 1, Set::<usize>::empty()),
{
    let id = trail[ai].0 as int;
    let none = Set::<usize>::empty();
    assert forall|c: int| 0 <= c < clauses.len() implies #[trigger] flowing_at(
        vars,
        clauses,
        trail,
        place,
        ai + 1,
        none,
        c,
    ) by {
        assert(flowing_at(vars, clauses, trail, place, ai, done, c));
        let clause = clauses[c];
        let cid = c as usize;
        assert(clause.wf(vars.len()));
        // A clause that still waited for the variable at `ai` would stand in
        // the list that has been gone through.
        if clause.linked(cid, vars) {
            let l1 = clause.lit1();
            if lit_false(vars, l1) && on_trail(trail, place, l1.var()) && place[l1.var()] == ai {
                assert(l1.var() == id);
                assert(holds(vars, cid, l1.var(), l1.spec_negated()));
                let k = choose|k: int| 0 <= k < list.len() && list[k] == cid;
                assert(done.contains(list[k]));
            }
            let l0 = clause.lit0();
            if lit_false(vars, l0) && on_trail(trail, place, l0.var()) && place[l0.var()] == ai {
                assert(l0.var() == id);
                assert(holds(vars, cid, l0.var(), l0.spec_negated()));
                let k = choose|k: int| 0 <= k < list.len() && list[k] == cid;
                assert(done.contains(list[k]));
            }
        }
    }
}

/// After a conflict, a clause that is not guarded has its second watched
/// literal at the current depth.
pub(crate) proof fn lemma_flow_stirred(
    vars: Seq<Variable>,
    clauses: Seq<Clause>,
    trail: Seq<VariableId>,
    place: Seq<int>,
    levels: Seq<int>,
    depth: usize,
    ai: int,
    done: Set<usize>,
)
    requires
        flowing(vars, clauses, trail, place, ai, done),
        trail_ok(vars, trail, place, levels, depth),
        0 <= ai < trail.len(),
        forall|i: int| ai <= i < trail.len() ==> vars[(#[trigger] trail[i]).0 as int].depth.0 == depth,
    ensures
        stirred(vars, clauses, depth),
{
    assert forall|c: int| 0 <= c < clauses.len() implies #[trigger] stirred_at(vars, clauses, depth, c) by {
        assert(flowing_at(vars, clauses, trail, place, ai, done, c));
        let clause = clauses[c];
        if !clause.guarded(vars) {
            let u = clause.lit1().var();
            assert(trail[place[u]].0 == u);
        }
        if !clause.anchored(vars) {
            let u = clause.lit0().var();
            assert(trail[place[u]].0 == u);
            assert(lit_depth(vars, clause.lit0()) == 0);
        }
    }
}

/// A quiet state that gains one assignment, put at the end of the trail, has
/// nothing to look at but the clauses that watch the new assignment.
pub(crate) proof fn lemma_quiet_assigned(
    before: Seq<Variable>,
    after: Seq<Variable>,
    clauses: Seq<Clause>,
    trail: Seq<VariableId>,
    place: Seq<int>,
    x: int,
    depth: usize,
)
    requires
        quiet(before, clauses),
        0 <= x < before.len(),
        x <= usize::MAX,
        !before[x].assigned(),
        after[x].assigned(),
        after[x].depth.0 == depth,
        after.len() == before.len(),
        forall|v: int| 0 <= v < before.len() && v != x ==> #[trigger] after[v] == before[v],
        after[x].same_watchlists(&before[x]),
        forall|v: int| 0 <= v < before.len() && (#[trigger] before[v]).assigned() ==> before[v].depth.0 <= depth,
        forall|c: int| 0 <= c < clauses.len() ==> (#[trigger] clauses[c]).wf(before.len()),
        place.len() == before.len(),
        clauses.len() <= usize::MAX,
    ensures
        flowing(
            after,
            clauses,
            trail.push(VariableId(x as usize)),
            place.update(x, trail.len() as int),
            trail.len() as int,
            Set::<usize>::empty(),
        ),
{
    let trail2 = trail.push(VariableId(x as usize));
    let place2 = place.update(x, trail.len() as int);
    let none = Set::<usize>::empty();
    assert forall|c: int| 0 <= c < clauses.len() implies #[trigger] flowing_at(
        after,
        clauses,
        trail2,
        place2,
        trail.len() as int,
        none,
        c,
    ) by {
        assert(quiet_at(before, clauses, c));
        lemma_assigned_clause(before, after, clauses[c], c as usize, x, depth);
        let clause = clauses[c];
        assert(clause.wf(before.len()));
        assert(has_home(clause, c as usize, after));
        if !clause.guarded(after) {
            assert(clause.lit1().var() == x);
            assert(trail2[trail.len() as int].0 == x);
            assert(place2[x] == trail.len());
            assert(on_trail(trail2, place2, x));
            assert(clause.linked(c as usize, after));
            assert(waits(after, trail2, place2, clause.lit1(), c as usize, trail.len() as int, none));
        }
        if !clause.anchored(after) {
            assert(clause.lit0().var() == x);
            assert(trail2[trail.len() as int].0 == x);
            assert(place2[x] == trail.len());
            assert(on_trail(trail2, place2, x));
            assert(clause.linked(c as usize, after));
            assert(waits(after, trail2, place2, clause.lit0(), c as usize, trail.len() as int, none));
        }
    }
}

/// What one more assignment, at a depth no less than any, does to a clause:
/// it stays at home; it stays guarded unless its second watched literal is
/// the one that has become false; it stays anchored unless its first
/// watched literal is the one that has become false, at depth 0.
pub(crate) proof fn lemma_assigned_clause(
    before: Seq<Variable>,
    after: Seq<Variable>,
    clause: Clause,
    cid: usize,
    x: int,
    depth: usize,
)
    requires
        0 <= x < before.len(),
        !before[x].assigned(),
        after[x].assigned(),
        after[x].depth.0 == depth,
        after.len() == before.len(),
        forall|v: int| 0 <= v < before.len() && v != x ==> #[trigger] after[v] == before[v],
        after[x].same_watchlists(&before[x]),
        forall|v: int| 0 <= v < before.len() && (#[trigger] before[v]).assigned() ==> before[v].depth.0 <= depth,
        clause.wf(before.len()),
    ensures
        has_home(clause, cid, before) ==> has_home(clause, cid, after),
        clause.linked(cid, before) == clause.linked(cid, after),
        clause.fixed_true(before) ==> clause.fixed_true(after),
        clause.guarded(before) ==> clause.guarded(after) || (clause.lit1().var() == x && lit_false(
            after,
            clause.lit1(),
        ) && !clause.fixed_true(after)),
        clause.anchored(before) ==> clause.anchored(after) || (clause.lit0().var() == x && lit_false(
            after,
            clause.lit0(),
        ) && depth == 0 && !clause.fixed_true(after)),
{
    let lits = clause.lits();
    assert forall|v: int, n: bool| 0 <= v < before.len() implies #[trigger] holds(before, cid, v, n)
        == holds(after, cid, v, n) by {
        if v != x {
            assert(after[v] == before[v]);
        }
    }
    let at = set![place(clause.lit0()), place(clause.lit1())];
    if clause.linked(cid, before) {
        assert forall|v: int, n: bool| 0 <= v < after.len() implies (#[trigger] holds(after, cid, v, n)
            <==> at.contains((v, n))) by {
            assert(holds(before, cid, v, n) == holds(after, cid, v, n));
        }
    }
    if clause.linked(cid, after) {
        assert forall|v: int, n: bool| 0 <= v < before.len() implies (#[trigger] holds(before, cid, v, n)
            <==> at.contains((v, n))) by {
            assert(holds(before, cid, v, n) == holds(after, cid, v, n));
        }
    }
    if clause.fixed_true(before) {
        let k = choose|k: int|
            0 <= k < lits.len() && lit_true(before, #[trigger] lits[k]) && lit_depth(before, lits[k])
                == 0;
        assert(lits[k].var() != x);
        assert(after[lits[k].var()] == before[lits[k].var()]);
        assert(lit_true(after, lits[k]));
    }
    if clause.guarded(before) {
        let l1 = clause.lit1();
        if lit_assigned(before, l1) {
            let k = choose|k: int|
                0 <= k < lits.len() && lit_true(before, #[trigger] lits[k]) && lit_depth(
                    before,
                    lits[k],
                ) <= lit_depth(before, l1);
            assert(lits[k].var() != x);
            assert(l1.var() != x);
            assert(after[lits[k].var()] == before[lits[k].var()]);
            assert(after[l1.var()] == before[l1.var()]);
            assert(lit_true(after, lits[k]));
        } else if l1.var() != x {
            assert(after[l1.var()] == before[l1.var()]);
        } else if lit_true(after, l1) {
            assert(lit_true(after, lits[clause.w1()]));
        } else if clause.fixed_true(after) {
            let k = choose|k: int|
                0 <= k < lits.len() && lit_true(after, #[trigger] lits[k]) && lit_depth(after, lits[k])
                    == 0;
            assert(lit_depth(after, lits[k]) <= lit_depth(after, l1));
        }
    }
    if clause.anchored(before) {
        let l0 = clause.lit0();
        if l0.var() != x {
            assert(after[l0.var()] == before[l0.var()]);
        } else if lit_true(after, l0) && depth == 0 {
            assert(lit_true(after, lits[clause.w0()]));
        }
    }
}

/// What holds while a clause that has been looked at waits for the literal
/// on which it is unit to be set: of this clause what `apply` promises, of
/// the others what holds while consequences are worked out.
pub open(crate) spec fn fed(
    vars: Seq<Variable>,
    clauses: Seq<Clause>,
    trail: Seq<VariableId>,
    place: Seq<int>,
    ai: int,
    done: Set<usize>,
    cid: usize,
) -> bool {
    &&& forall|c: int|
        0 <= c < clauses.len() && c != cid ==> #[trigger] flowing_at(
            vars,
            clauses,
            trail,
            place,
            ai,
            done,
            c,
        )
    &&& has_home(clauses[cid as int], cid, vars)
    &&& (clauses[cid as int].guarded(vars) || deepest_assigned(vars, clauses[cid as int].lit1()))
    &&& (clauses[cid as int].anchored(vars) || all_at_zero(vars))
}

/// A clause that waits to be looked at meets what `apply` asks for.
pub(crate) proof fn lemma_waiting_premises(
    vars: Seq<Variable>,
    clauses: Seq<Clause>,
    trail: Seq<VariableId>,
    place: Seq<int>,
    levels: Seq<int>,
    depth: usize,
    ai: int,
    done: Set<usize>,
    cid: usize,
)
    requires
        flowing(vars, clauses, trail, place, ai, done),
        trail_ok(vars, trail, place, levels, depth),
        cid < clauses.len(),
        clauses[cid as int].wf(vars.len()),
        0 <= ai < trail.len(),
        forall|i: int| ai <= i < trail.len() ==> vars[(#[trigger] trail[i]).0 as int].depth.0 == depth,
    ensures
        clauses[cid as int].guarded(vars) || deepest_assigned(vars, clauses[cid as int].lit1()),
        clauses[cid as int].anchored(vars) || all_at_zero(vars),
{
    let clause = clauses[cid as int];
    assert(flowing_at(vars, clauses, trail, place, ai, done, cid as int));
    if !clause.guarded(vars) {
        let u = clause.lit1().var();
        assert(trail[place[u]].0 == u);
        assert(lit_depth(vars, clause.lit1()) == depth);
    }
    if !clause.anchored(vars) {
        let u = clause.lit0().var();
        assert(trail[place[u]].0 == u);
        assert(lit_depth(vars, clause.lit0()) == depth);
        assert(depth == 0);
    }
}

/// After `apply` has worked on the clause `cid`, the other clauses are as
/// they were, and the clause counts as done.
pub(crate) proof fn lemma_flow_applied(
    vars0: Seq<Variable>,
    vars1: Seq<Variable>,
    clauses0: Seq<Clause>,
    clauses1: Seq<Clause>,
    trail: Seq<VariableId>,
    place: Seq<int>,
    ai: int,
    done: Set<usize>,
    cid: usize,
)
    requires
        flowing(vars0, clauses0, trail, place, ai, done),
        cid < clauses0.len(),
        clauses0.len() <= usize::MAX,
        clauses1 == clauses0.update(cid as int, clauses1[cid as int]),
        same_assignment(vars1, vars0),
        other_links_kept(vars0, vars1, cid),
        forall|c: int| 0 <= c < clauses0.len() ==> (#[trigger] clauses0[c]).wf(vars0.len()),
        has_home(clauses1[cid as int], cid, vars1),
        clauses1[cid as int].guarded(vars1) || deepest_assigned(vars1, clauses1[cid as int].lit1()),
        clauses1[cid as int].anchored(vars1) || all_at_zero(vars1),
    ensures
        fed(vars1, clauses1, trail, place, ai, done.insert(cid), cid),
{
    let done1 = done.insert(cid);
    assert forall|c: int| 0 <= c < clauses1.len() && c != cid implies #[trigger] flowing_at(
        vars1,
        clauses1,
        trail,
        place,
        ai,
        done1,
        c,
    ) by {
        assert(flowing_at(vars0, clauses0, trail, place, ai, done, c));
        let clause = clauses0[c];
        assert(clauses1[c] == clause);
        assert(clause.wf(vars0.len()));
        let x = c as usize;
        assert forall|v: int, n: bool| 0 <= v < vars0.len() implies #[trigger] holds(vars0, x, v, n)
            == holds(vars1, x, v, n) by {
        }
        lemma_home_same(clause, clause, x, vars0, vars1);
        assert(vars1[clause.lit1().var()].same_state(&vars0[clause.lit1().var()]));
        assert(vars1[clause.lit0().var()].same_state(&vars0[clause.lit0().var()]));
    }
}

/// A clause of which `apply` has promised its part is quiet if it needs
/// nothing more.
pub(crate) proof fn lemma_fed_flowing(
    vars: Seq<Variable>,
    clauses: Seq<Clause>,
    trail: Seq<VariableId>,
    place: Seq<int>,
    ai: int,
    done: Set<usize>,
    cid: usize,
)
    requires
        fed(vars, clauses, trail, place, ai, done, cid),
        cid < clauses.len(),
        clauses[cid as int].guarded(vars),
        clauses[cid as int].anchored(vars),
    ensures
        flowing(vars, clauses, trail, place, ai, done),
{
    assert forall|c: int| 0 <= c < clauses.len() implies #[trigger] flowing_at(
        vars,
        clauses,
        trail,
        place,
        ai,
        done,
        c,
    ) by {
        if c != cid {
        }
    }
}

/// Setting the literal on which the clause `cid` is unit, at the current
/// depth and at the end of the trail, leaves that clause guarded and
/// anchored, and the other clauses at most waiting for the new assignment.
pub(crate) proof fn lemma_flow_unit(
    vars1: Seq<Variable>,
    vars2: Seq<Variable>,
    clauses1: Seq<Clause>,
    clauses2: Seq<Clause>,
    trail: Seq<VariableId>,
    place: Seq<int>,
    levels: Seq<int>,
    depth: usize,
    ai: int,
    done: Set<usize>,
    cid: usize,
    lit: Literal,
)
    requires
        fed(vars1, clauses1, trail, place, ai, done, cid),
        trail_ok(vars1, trail, place, levels, depth),
        cid < clauses1.len(),
        clauses1.len() <= usize::MAX,
        clauses2.len() == clauses1.len(),
        forall|c: int|
            0 <= c < clauses1.len() ==> (#[trigger] clauses2[c]).lits() == clauses1[c].lits()
                && clauses2[c].w0() == clauses1[c].w0() && clauses2[c].w1() == clauses1[c].w1(),
        forall|c: int| 0 <= c < clauses1.len() ==> (#[trigger] clauses1[c]).wf(vars1.len()),
        0 <= ai < trail.len(),
        vars1[trail[ai].0 as int].depth.0 == depth,
        clauses1[cid as int].unit_on(vars1, lit),
        lit == clauses1[cid as int].lit0() || lit == clauses1[cid as int].lit1(),
        lit.var() < vars1.len(),
        vars2.len() == vars1.len(),
        forall|v: int| 0 <= v < vars1.len() && v != lit.var() ==> #[trigger] vars2[v] == vars1[v],
        vars2[lit.var()].same_watchlists(&vars1[lit.var()]),
        lit_true(vars2, lit),
        vars2[lit.var()].depth.0 == depth,
    ensures
        flowing(
            vars2,
            clauses2,
            trail.push(VariableId(lit.var() as usize)),
            place.update(lit.var(), trail.len() as int),
            ai,
            done,
        ),
{
    let x = lit.var();
    let trail2 = trail.push(VariableId(x as usize));
    let place2 = place.update(x, trail.len() as int);
    assert(!vars1[x].assigned());
    assert forall|c: int| 0 <= c < clauses2.len() implies #[trigger] flowing_at(
        vars2,
        clauses2,
        trail2,
        place2,
        ai,
        done,
        c,
    ) by {
        let c1 = clauses1[c];
        let c2 = clauses2[c];
        let id = c as usize;
        assert(c1.wf(vars1.len()));
        assert(c2.lit0() == c1.lit0() && c2.lit1() == c1.lit1());
        lemma_assigned_clause(vars1, vars2, c1, id, x, depth);
        assert forall|v: int, n: bool| 0 <= v < vars2.len() implies #[trigger] holds(vars2, id, v, n)
            == holds(vars2, id, v, n) by {
        }
        let same = vars2;
        assert(same_assignment(same, vars2)) by {
            assert forall|v: int| 0 <= v < same.len() implies (#[trigger] same[v]).same_state(&vars2[v]) by {
            }
        }
        lemma_home_same(c1, c2, id, vars2, vars2);
        if c == cid {
            let lits = c1.lits();
            assert(lits.contains(lit));
            let k = choose|k: int| 0 <= k < lits.len() && lits[k] == lit;
            // The clause now holds a true literal at the current depth.
            if !c1.guarded(vars2) {
                if lit == c1.lit1() {
                    assert(lit_true(vars2, lits[c1.w1()]));
                } else {
                    let l1 = c1.lit1();
                    assert(l1 != lit);
                    assert(lits[c1.w1()] != lit);
                    assert(lit_false(vars1, lits[c1.w1()]));
                    assert(!c1.guarded(vars1)) by {
                        if c1.guarded(vars1) {
                            let t = choose|t: int|
                                0 <= t < lits.len() && lit_true(vars1, #[trigger] lits[t])
                                    && lit_depth(vars1, lits[t]) <= lit_depth(vars1, l1);
                            assert(lits[t] != lit);
                            assert(lit_false(vars1, lits[t]));
                        }
                    }
                    assert(deepest_assigned(vars1, l1));
                    assert(vars1[trail[ai].0 as int].assigned());
                    assert(vars1[trail[ai].0 as int].depth.0 <= lit_depth(vars1, l1));
                    assert(vars2[l1.var()] == vars1[l1.var()]);
                    assert(lit_true(vars2, lits[k]));
                    assert(lit_depth(vars2, lits[k]) <= lit_depth(vars2, l1));
                }
            }
            if !c1.anchored(vars2) {
                let l0 = c1.lit0();
                if lit == l0 {
                    assert(lit_true(vars2, lits[c1.w0()]));
                } else {
                    assert(lits[c1.w0()] != lit);
                    assert(lit_false(vars1, lits[c1.w0()]));
                    assert(vars2[l0.var()] == vars1[l0.var()]);
                    assert(!c1.anchored(vars1));
                    assert(all_at_zero(vars1));
                    assert(vars1[trail[ai].0 as int].assigned());
                    assert(depth == 0);
                    assert(lit_true(vars2, lits[k]));
                }
            }
        } else {
            assert(flowing_at(vars1, clauses1, trail, place, ai, done, c));
            // A clause that waited goes on waiting; one whose watched
            // literal has become false waits for the new assignment.
            lemma_wait_kept(vars1, vars2, trail, place, c1.lit1(), id, ai, done, x);
            lemma_wait_kept(vars1, vars2, trail, place, c1.lit0(), id, ai, done, x);
            if !c1.guarded(vars2) && c1.guarded(vars1) {
                assert(trail2[trail.len() as int].0 == x);
                assert(on_trail(trail2, place2, x));
            }
            if !c1.anchored(vars2) && c1.anchored(vars1) {
                assert(trail2[trail.len() as int].0 == x);
                assert(on_trail(trail2, place2, x));
            }
            if !c1.guarded(vars1) {
                // It waited before: it still does, or it has become guarded.
                assert(c1.linked(id, vars1));
            }
        }
    }
}

/// A literal that waits goes on waiting when another variable is assigned
/// and put at the end of the trail.
pub(crate) proof fn lemma_wait_kept(
    vars1: Seq<Variable>,
    vars2: Seq<Variable>,
    trail: Seq<VariableId>,
    place: Seq<int>,
    lit: Literal,
    cid: usize,
    ai: int,
    done: Set<usize>,
    x: int,
)
    requires
        0 <= x < vars1.len(),
        x <= usize::MAX,
        !vars1[x].assigned(),
        vars2.len() == vars1.len(),
        place.len() == vars1.len(),
        lit.var() < vars1.len(),
        forall|v: int| 0 <= v < vars1.len() && v != x ==> #[trigger] vars2[v] == vars1[v],
        forall|i: int| 0 <= i < trail.len() ==> (#[trigger] trail[i]).0 < vars1.len() && vars1[trail[i].0 as int].assigned(),
    ensures
        waits(vars1, trail, place, lit, cid, ai, done) ==> waits(
            vars2,
            trail.push(VariableId(x as usize)),
            place.update(x, trail.len() as int),
            lit,
            cid,
            ai,
            done,
        ),
{
    if waits(vars1, trail, place, lit, cid, ai, done) {
        let u = lit.var();
        assert(u != x);
        assert(vars2[u] == vars1[u]);
        let trail2 = trail.push(VariableId(x as usize));
        assert(trail2[place[u]] == trail[place[u]]);
    }
}

/// When the trail is cut back to a depth below that of a conflict, or
/// below the current depth of a quiet state, the clauses are quiet.
pub(crate) proof fn lemma_unwound_quiet(
    before: Seq<Variable>,
    after: Seq<Variable>,
    clauses: Seq<Clause>,
    trail: Seq<VariableId>,
    place: Seq<int>,
    levels: Seq<int>,
    depth: usize,
    target: int,
    stop: int,
)
    requires
        stirred(before, clauses, depth) || quiet(before, clauses),
        trail_ok(before, trail, place, levels, depth),
        0 <= target < depth,
        stop == if target == 0 { 0 } else { levels[target] },
        unwound(before, after, trail, place, stop),
        clauses.len() <= usize::MAX,
        forall|c: int| 0 <= c < clauses.len() ==> (#[trigger] clauses[c]).wf(before.len()),
    ensures
        quiet(after, clauses),
        forall|v: int|
            0 <= v < before.len() && (#[trigger] before[v]).assigned() ==> (after[v].assigned()
                <==> before[v].depth.0 <= target),
{
    assert(levels[0] == 0);
    assert forall|v: int| 0 <= v < before.len() && (#[trigger] before[v]).assigned() implies (
    after[v].assigned() <==> before[v].depth.0 <= target) by {
        let d = before[v].depth.0 as int;
        if on_trail(trail, place, v) {
            assert(entry_ok(before, trail, levels, place[v]));
            assert(d >= 1);
            if d <= target {
                if d < target {
                    assert(levels[d] < levels[target]);
                }
                assert(place[v] < stop);
            } else {
                if target >= 1 {
                    if target < d - 1 {
                        assert(levels[target] < levels[d - 1]);
                    }
                    assert(place[v] >= stop);
                }
            }
        } else {
            assert(after[v] == before[v]);
        }
    }
    assert forall|c: int| 0 <= c < clauses.len() implies #[trigger] quiet_at(after, clauses, c) by {
        let clause = clauses[c];
        let cid = c as usize;
        let lits = clause.lits();
        assert(clause.wf(before.len()));
        assert(stirred_at(before, clauses, depth, c) || quiet_at(before, clauses, c));
        assert forall|v: int, n: bool| 0 <= v < before.len() implies #[trigger] holds(before, cid, v, n)
            == holds(after, cid, v, n) by {
            assert(after[v].same_watchlists(&before[v]) || after[v] == before[v]);
        }
        let at = set![crate::cnf::watching::place(clause.lit0()), crate::cnf::watching::place(clause.lit1())];
        if clause.linked(cid, before) {
            assert forall|v: int, n: bool| 0 <= v < after.len() implies (#[trigger] holds(after, cid, v, n)
                <==> at.contains((v, n))) by {
                assert(holds(before, cid, v, n) == holds(after, cid, v, n));
            }
        }
        if clause.fixed_true(before) {
            let k = choose|k: int|
                0 <= k < lits.len() && lit_true(before, #[trigger] lits[k]) && lit_depth(before, lits[k])
                    == 0;
            assert(before[lits[k].var()].assigned());
            assert(after[lits[k].var()].assigned());
            assert(after[lits[k].var()] == before[lits[k].var()]);
            assert(lit_true(after, lits[k]));
        }
        let l1 = clause.lit1();
        if lit_assigned(after, l1) {
            assert(after[l1.var()] == before[l1.var()]);
            assert(before[l1.var()].assigned());
            assert(before[l1.var()].depth.0 <= target);
            assert(clause.guarded(before));
            let k = choose|k: int|
                0 <= k < lits.len() && lit_true(before, #[trigger] lits[k]) && lit_depth(
                    before,
                    lits[k],
                ) <= lit_depth(before, l1);
            assert(before[lits[k].var()].assigned());
            assert(after[lits[k].var()].assigned());
            assert(after[lits[k].var()] == before[lits[k].var()]);
            assert(lit_true(after, lits[k]));
        }
        let l0 = clause.lit0();
        if lit_assigned(after, l0) {
            assert(after[l0.var()] == before[l0.var()]);
            assert(clause.anchored(before));
        }
    }
}

/// Quiet clauses stay quiet while the values stay and each keeps its links.
pub(crate) proof fn lemma_quiet_same(
    va: Seq<Variable>,
    vb: Seq<Variable>,
    ca: Seq<Clause>,
    cb: Seq<Clause>,
    skip: int,
)
    requires
        quiet(va, ca),
        same_assignment(va, vb),
        ca.len() == cb.len(),
        ca.len() <= usize::MAX,
        forall|c: int|
            0 <= c < ca.len() ==> (#[trigger] cb[c]).lits() == ca[c].lits() && cb[c].w0() == ca[c].w0()
                && cb[c].w1() == ca[c].w1() && ca[c].wf(va.len()),
        forall|x: usize, v: int, n: bool|
            #![trigger holds(va, x, v, n)]
            #![trigger holds(vb, x, v, n)]
            x != skip && 0 <= v < va.len() ==> holds(va, x, v, n) == holds(vb, x, v, n),
    ensures
        forall|c: int| 0 <= c < cb.len() && c != skip ==> #[trigger] quiet_at(vb, cb, c),
{
    assert forall|c: int| 0 <= c < cb.len() && c != skip implies #[trigger] quiet_at(vb, cb, c) by {
        assert(quiet_at(va, ca, c));
        let x = c as usize;
        assert forall|v: int, n: bool| 0 <= v < va.len() implies #[trigger] holds(va, x, v, n)
            == holds(vb, x, v, n) by {
        }
        lemma_home_same(ca[c], cb[c], x, va, vb);
    }
}

/// In a quiet state in which every variable is assigned, every clause holds
/// under the values that are assigned.
pub(crate) proof fn lemma_quiet_total(vars: Seq<Variable>, clauses: Seq<Clause>, m: Seq<bool>, c: int)
    requires
        quiet(vars, clauses),
        0 <= c < clauses.len(),
        clauses[c].wf(vars.len()),
        forall|v: int| 0 <= v < vars.len() ==> (#[trigger] vars[v]).assigned(),
        m.len() == vars.len(),
        forall|v: int| 0 <= v < vars.len() ==> m[v] == (#[trigger] vars[v]).value,
    ensures
        clause_holds(m, clauses[c].lits()),
{
    let clause = clauses[c];
    let lits = clause.lits();
    assert(quiet_at(vars, clauses, c));
    assert(vars[clause.lit1().var()].assigned());
    let k = choose|k: int|
        0 <= k < lits.len() && lit_true(vars, #[trigger] lits[k]) && lit_depth(vars, lits[k])
            <= lit_depth(vars, clause.lit1());
    assert(vars[lits[k].var()].assigned());
    assert(lit_holds(m, lits[k]));
}

} // verus!
