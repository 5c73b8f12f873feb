use vstd::prelude::*;

use super::bound::{
    cap, lemma_cap, lemma_cap_sure, lemma_phi_decided, lemma_phi_empty, lemma_phi_grows, lemma_phi_jumped,
    lemma_room_positive, lemma_room_reset, phi, SURE, SURE_CAP,
};

use super::{
    agrees_fixed, all_entailed, count_unassigned, entry_ok, implied_by, lemma_count_bound,
    lemma_count_same, lemma_count_update, lemma_count_zero, lemma_fixed_entailed_kept,
    lemma_fixed_entailed_more, lemma_unit_entailed, on_trail, reason_ok, reasons_ok, trail_ok,
    watch_ok, Problem, ALPHA_FLOOR,
};
use super::guard::{
    flowing, flowing_at, has_home, lemma_fed_flowing, lemma_flow_applied, lemma_flow_on,
    lemma_flow_stirred, lemma_flow_unit, lemma_flowed, lemma_home_same, lemma_quiet_assigned,
    lemma_quiet_same, lemma_quiet_total, lemma_unwound_quiet, lemma_waiting_premises, quiet,
    quiet_at, stirred, stirred_at,
};
use crate::cnf::logic::{clause_holds, entails, formula_holds, lit_holds, satisfiable};
use crate::cnf::clause::Apply;
use crate::cnf::valuation::{lit_assigned, lit_depth, lit_false, lit_true, lits_in_range};
use crate::cnf::variable::Q_ONE;
use crate::cnf::watching::{holds, lists_distinct, other_links_kept, unlinked};
use crate::cnf::{Clause, Literal, Variable, VariableId};
use crate::SolverResult;

verus! {

/// From `before` to `after` the variables on the trail from place `kept` on
/// have lost their assignment, and nothing else has changed.
pub open(crate) spec fn unwound(
    before: Seq<Variable>,
    after: Seq<Variable>,
    trail: Seq<VariableId>,
    place: Seq<int>,
    kept: int,
) -> bool {
    &&& after.len() == before.len()
    &&& forall|v: int|
        0 <= v < before.len() ==> if on_trail(trail, place, v) && place[v] >= kept {
            &&& !(#[trigger] after[v]).assigned()
            &&& after[v].value == before[v].value
            &&& after[v].ante == before[v].ante
            &&& after[v].q == before[v].q
            &&& after[v].same_watchlists(&before[v])
        } else {
            after[v] == before[v]
        }
}

/// The watch lists are in order as long as they are not touched.
pub(crate) proof fn lemma_watch_ok_same_lists(a: Seq<Variable>, b: Seq<Variable>, clauses: Seq<Clause>)
    requires
        watch_ok(a, clauses),
        a.len() == b.len(),
        forall|v: int| 0 <= v < a.len() ==> (#[trigger] b[v]).same_watchlists(&a[v]),
    ensures
        watch_ok(b, clauses),
{
    assert forall|v: int, n: bool| 0 <= v < b.len() implies (#[trigger] b[v].watchlist(
        n,
    )).no_duplicates() by {
        assert(b[v].same_watchlists(&a[v]));
        assert(a[v].watchlist(n).no_duplicates());
    }
    assert forall|cid: usize, v: int, n: bool| 0 <= v < a.len() implies #[trigger] holds(b, cid, v, n)
        == holds(a, cid, v, n) by {
        assert(b[v].same_watchlists(&a[v]));
    }
    assert forall|c: int| 0 <= c < clauses.len() implies (#[trigger] clauses[c]).wf(b.len()) && (
    clauses[c].linked(c as usize, b) || unlinked(b, c as usize)) by {
        let cid = c as usize;
        if clauses[c].linked(cid, a) {
            assert forall|v: int, n: bool| 0 <= v < b.len() implies (#[trigger] holds(b, cid, v, n)
                <==> set![
                crate::cnf::watching::place(clauses[c].lit0()),
                crate::cnf::watching::place(clauses[c].lit1()),
            ].contains((v, n))) by {
                assert(holds(b, cid, v, n) == holds(a, cid, v, n));
            }
        } else {
            assert forall|v: int, n: bool| 0 <= v < b.len() implies !#[trigger] holds(
                b,
                cid,
                v,
                n,
            ) by {
                assert(holds(b, cid, v, n) == holds(a, cid, v, n));
            }
        }
    }
}

/// The reasons of the variables that stay on the trail stay in order when
/// the trail is cut back.
pub(crate) proof fn lemma_reasons_unwound(
    before: Seq<Variable>,
    after: Seq<Variable>,
    clauses: Seq<Clause>,
    trail: Seq<VariableId>,
    place: Seq<int>,
    levels: Seq<int>,
    kept: int,
)
    requires
        0 <= kept <= trail.len(),
        trail_ok(before, trail, place, levels, levels.len() as usize),
        levels.len() <= usize::MAX,
        reasons_ok(before, clauses, trail, place),
        unwound(before, after, trail, place, kept),
        forall|c: int| 0 <= c < clauses.len() ==> lits_in_range((#[trigger] clauses[c]).lits(), before.len()),
    ensures
        reasons_ok(after, clauses, trail.take(kept), place),
{
    let cut = trail.take(kept);
    assert forall|i: int| 0 <= i < cut.len() implies #[trigger] reason_ok(
        after,
        clauses,
        cut,
        place,
        cut[i].0 as int,
    ) by {
        let v = trail[i].0 as int;
        assert(cut[i] == trail[i]);
        assert(reason_ok(before, clauses, trail, place, trail[i].0 as int));
        assert(place[v] == i);
        assert(after[v] == before[v]);
        if before[v].ante != usize::MAX {
            let lits = clauses[before[v].ante as int].lits();
            assert(implied_by(before, trail, place, lits, v));
            let k = choose|k: int|
                0 <= k < lits.len() && (#[trigger] lits[k]).var() == v && lit_true(before, lits[k]);
            assert(lit_true(after, lits[k]));
            assert forall|j: int| 0 <= j < lits.len() && (#[trigger] lits[j]).var() != v implies lit_false(
                after,
                lits[j],
            ) && (on_trail(cut, place, lits[j].var()) ==> place[lits[j].var()] < place[v]) by {
                let u = lits[j].var();
                assert(u < before.len());
                assert(lit_false(before, lits[j]));
                assert(before[u].assigned());
                if on_trail(trail, place, u) {
                    assert(place[u] < place[v]);
                    assert(after[u] == before[u]);
                } else {
                    assert(after[u] == before[u]);
                }
                if on_trail(cut, place, u) {
                    assert(cut[place[u]] == trail[place[u]]);
                    assert(on_trail(trail, place, u));
                }
            }
        }
    }
}

impl<T> Problem<T> {
    /// Takes back every assignment on the trail and returns to depth 0.
    pub(crate) fn restart(&mut self)
        requires
            old(self).inv(),
        ensures
            old(self).sound() ==> final(self).sound(),
            old(self).ready() && (old(self).calm() || (old(self).troubled() && old(self).depth.0 >= 1))
                ==> final(self).calm(),
            final(self).ready(),
            final(self).depth.0 == 0,
            final(self).applications@.len() == 0,
            unwound(old(self).variables@, final(self).variables@, old(self).applications@, old(self).place@, 0),
            final(self).clauses == old(self).clauses,
            final(self).variable_names == old(self).variable_names,
            final(self).irreducible == old(self).irreducible,
            final(self).num_conflicts == old(self).num_conflicts,
            final(self).gc_count == old(self).gc_count,
            final(self).alpha == old(self).alpha,
            final(self).plays == old(self).plays,
            final(self).last_conflict == old(self).last_conflict,
            final(self).conflict_lens == old(self).conflict_lens,
            final(self).active_variables == old(self).active_variables,
            final(self).solution == old(self).solution,
            final(self).origin == old(self).origin,
            final(self).base == old(self).base,
    {
        let ghost vars0 = self.variables@;
        let ghost trail0 = self.applications@;
        let ghost place0 = self.place@;
        self.depth = VariableId::from_usize(0);
        while self.applications.len() > 0
            invariant
                self.applications@ == trail0.take(self.applications@.len() as int),
                self.applications@.len() <= trail0.len(),
                trail0 == old(self).applications@,
                vars0 == old(self).variables@,
                place0 == old(self).place@,
                self.place@ == place0,
                old(self).inv(),
                unwound(vars0, self.variables@, trail0, place0, self.applications@.len() as int),
                count_unassigned(self.variables@) + self.applications@.len() == self.active_variables,
                self.clauses == old(self).clauses,
                self.variable_names == old(self).variable_names,
                self.irreducible == old(self).irreducible,
                self.num_conflicts == old(self).num_conflicts,
                self.gc_count == old(self).gc_count,
                self.alpha == old(self).alpha,
                self.plays == old(self).plays,
                self.last_conflict == old(self).last_conflict,
                self.conflict_lens == old(self).conflict_lens,
                self.active_variables == old(self).active_variables,
                self.solution == old(self).solution,
                self.origin == old(self).origin,
                self.base == old(self).base,
                self.levels == old(self).levels,
                self.depth.0 == 0,
            decreases self.applications@.len(),
        {
            let ghost len = self.applications@.len() as int;
            let ghost vars1 = self.variables@;
            let id = self.applications.pop().unwrap();
            proof {
                assert(id == trail0[len - 1]);
                assert(place0[id.0 as int] == len - 1);
                assert(vars1[id.0 as int] == vars0[id.0 as int]);
            }
            self.variables[id.to_usize()].unset();
            proof {
                assert(self.applications@ =~= trail0.take(len - 1));
                assert(self.variables@ =~= vars1.update(id.0 as int, self.variables@[id.0 as int]));
                lemma_count_update(vars1, id.0 as int, self.variables@[id.0 as int]);
                assert forall|v: int| 0 <= v < vars0.len() implies if on_trail(trail0, place0, v)
                    && place0[v] >= len - 1 {
                    &&& !(#[trigger] self.variables@[v]).assigned()
                    &&& self.variables@[v].value == vars0[v].value
                    &&& self.variables@[v].ante == vars0[v].ante
                    &&& self.variables@[v].q == vars0[v].q
                    &&& self.variables@[v].same_watchlists(&vars0[v])
                } else {
                    self.variables@[v] == vars0[v]
                } by {
                    if v == id.0 {
                    } else {
                        assert(self.variables@[v] == vars1[v]);
                        if on_trail(trail0, place0, v) && place0[v] == len - 1 {
                            assert(trail0[place0[v]].0 == v);
                        }
                    }
                }
            }
        }
        proof {
            self.levels = Ghost(Seq::empty());
            let vars = self.variables@;
            assert forall|v: int| 0 <= v < vars.len() implies (#[trigger] vars[v]).same_watchlists(
                &vars0[v],
            ) && vars[v].q == vars0[v].q by {
            }
            lemma_watch_ok_same_lists(vars0, vars, self.clauses@);
            assert forall|v: int| 0 <= v < vars.len() && (#[trigger] vars[v]).assigned() implies vars[v].depth.0
                <= 0 && (on_trail(self.applications@, place0, v) || vars[v].depth.0 == 0) by {
                assert(vars[v] == vars0[v]);
                assert(!on_trail(trail0, place0, v));
            }
            if old(self).sound() {
                assert forall|v: int|
                    0 <= v < vars.len() && (#[trigger] vars[v]).assigned() && vars[v].depth.0
                        == 0 implies vars0[v].assigned() && vars0[v].depth.0 == 0 && vars0[v].value
                    == vars[v].value by {
                    assert(vars[v] == vars0[v]);
                }
                lemma_fixed_entailed_kept(self.origin@, vars0, vars);
            }
            if old(self).ready() && (old(self).calm() || (old(self).troubled() && old(self).depth.0
                >= 1)) {
                assert(self.clauses.len() == self.clauses@.len());
                if old(self).depth.0 == 0 {
                    assert(vars =~= vars0);
                } else {
                    assert forall|c: int| 0 <= c < self.clauses@.len() implies (#[trigger] self.clauses@[c]).wf(
                        vars0.len(),
                    ) by {
                    }
                    lemma_unwound_quiet(
                        vars0,
                        vars,
                        self.clauses@,
                        trail0,
                        place0,
                        old(self).levels@,
                        old(self).depth.0,
                        0,
                        0,
                    );
                }
            }
        }
    }

    /// Takes the assignments back that were made deeper than the current
    /// depth: pops the trail until its last entry lies at the current depth.
    pub(crate) fn backjump(&mut self)
        requires
            trail_ok(
                old(self).variables@,
                old(self).applications@,
                old(self).place@,
                old(self).levels@,
                old(self).levels@.len() as usize,
            ),
            old(self).levels@.len() <= usize::MAX,
            1 <= old(self).depth.0 <= old(self).levels@.len(),
            count_unassigned(old(self).variables@) + old(self).applications@.len() == old(self).active_variables,
        ensures
            final(self).levels@ == old(self).levels@.take(old(self).depth.0 as int),
            final(self).applications@ == old(self).applications@.take(
                final(self).applications@.len() as int,
            ),
            final(self).applications@.len() == if old(self).depth.0 < old(self).levels@.len() {
                old(self).levels@[old(self).depth.0 as int]
            } else {
                old(self).applications@.len() as int
            },
            unwound(
                old(self).variables@,
                final(self).variables@,
                old(self).applications@,
                old(self).place@,
                final(self).applications@.len() as int,
            ),
            trail_ok(
                final(self).variables@,
                final(self).applications@,
                final(self).place@,
                final(self).levels@,
                final(self).depth.0,
            ),
            count_unassigned(final(self).variables@) + final(self).applications@.len() == final(self).active_variables,
            final(self).depth == old(self).depth,
            final(self).place == old(self).place,
            final(self).clauses == old(self).clauses,
            final(self).variable_names == old(self).variable_names,
            final(self).irreducible == old(self).irreducible,
            final(self).num_conflicts == old(self).num_conflicts,
            final(self).gc_count == old(self).gc_count,
            final(self).alpha == old(self).alpha,
            final(self).plays == old(self).plays,
            final(self).last_conflict == old(self).last_conflict,
            final(self).conflict_lens == old(self).conflict_lens,
            final(self).active_variables == old(self).active_variables,
            final(self).solution == old(self).solution,
            final(self).origin == old(self).origin,
            final(self).base == old(self).base,
    {
        let ghost vars0 = self.variables@;
        let ghost trail0 = self.applications@;
        let ghost place0 = self.place@;
        let ghost levels0 = self.levels@;
        let ghost target = self.depth.0 as int;
        let ghost stop = if target < levels0.len() {
            levels0[target]
        } else {
            trail0.len() as int
        };
        proof {
            assert(levels0[target - 1] < stop) by {
                if target < levels0.len() {
                } else {
                    assert(levels0[target - 1] < trail0.len());
                }
            }
        }
        loop
            invariant
                self.applications@ == trail0.take(self.applications@.len() as int),
                stop <= self.applications@.len() <= trail0.len(),
                trail0 == old(self).applications@,
                vars0 == old(self).variables@,
                place0 == old(self).place@,
                levels0 == old(self).levels@,
                target == old(self).depth.0,
                1 <= target <= levels0.len(),
                levels0[target - 1] < stop,
                stop == if target < levels0.len() {
                    levels0[target]
                } else {
                    trail0.len() as int
                },
                trail_ok(vars0, trail0, place0, levels0, levels0.len() as usize),
                unwound(vars0, self.variables@, trail0, place0, self.applications@.len() as int),
                count_unassigned(self.variables@) + self.applications@.len() == self.active_variables,
                self.depth == old(self).depth,
                self.place == old(self).place,
                self.levels == old(self).levels,
                self.clauses == old(self).clauses,
                self.variable_names == old(self).variable_names,
                self.irreducible == old(self).irreducible,
                self.num_conflicts == old(self).num_conflicts,
                self.gc_count == old(self).gc_count,
                self.alpha == old(self).alpha,
                self.plays == old(self).plays,
                self.last_conflict == old(self).last_conflict,
                self.conflict_lens == old(self).conflict_lens,
                self.active_variables == old(self).active_variables,
                self.solution == old(self).solution,
                self.origin == old(self).origin,
                self.base == old(self).base,
            ensures
                self.applications@.len() == stop,
            decreases self.applications@.len(),
        {
            if self.applications.len() == 0 {
                break ;
            }
            let ghost len = self.applications@.len() as int;
            let ghost vars1 = self.variables@;
            let last = self.applications[self.applications.len() - 1];
            proof {
                assert(last == trail0[len - 1]);
                assert(place0[last.0 as int] == len - 1);
                assert(on_trail(trail0, place0, last.0 as int));
                assert(vars1[last.0 as int] == vars0[last.0 as int]);
                assert(entry_ok(vars0, trail0, levels0, len - 1));
            }
            if self.depth.to_usize() == self.variables[last.to_usize()].get_depth().to_usize() {
                proof {
                    if len > stop {
                    }
                }
                break ;
            }
            proof {
                // The last entry lies deeper than the target, so it is not the
                // last that has to stay.
                assert(len > stop) by {
                    if len == stop {
                        let d = vars0[last.0 as int].depth.0 as int;
                        assert(d >= 1 ==> levels0[d - 1] <= len - 1);
                        assert(d < levels0.len() ==> len - 1 < levels0[d]);
                        if d < target {
                            assert(levels0[d] <= levels0[target - 1]) by {
                                if d < target - 1 {
                                }
                            }
                        }
                        if d > target {
                            assert(levels0[target] <= levels0[d - 1]) by {
                                if target < d - 1 {
                                }
                            }
                        }
                    }
                }
            }
            self.variables[last.to_usize()].unset();
            self.applications.pop();
            proof {
                assert(self.applications@ =~= trail0.take(len - 1));
                assert(self.variables@ =~= vars1.update(last.0 as int, self.variables@[last.0 as int]));
                lemma_count_update(vars1, last.0 as int, self.variables@[last.0 as int]);
                assert forall|v: int| 0 <= v < vars0.len() implies if on_trail(trail0, place0, v)
                    && place0[v] >= len - 1 {
                    &&& !(#[trigger] self.variables@[v]).assigned()
                    &&& self.variables@[v].value == vars0[v].value
                    &&& self.variables@[v].ante == vars0[v].ante
                    &&& self.variables@[v].q == vars0[v].q
                    &&& self.variables@[v].same_watchlists(&vars0[v])
                } else {
                    self.variables@[v] == vars0[v]
                } by {
                    if v == last.0 {
                    } else {
                        assert(self.variables@[v] == vars1[v]);
                        if on_trail(trail0, place0, v) && place0[v] == len - 1 {
                            assert(trail0[place0[v]].0 == v);
                        }
                    }
                }
            }
        }
        proof {
            self.levels = Ghost(levels0.take(target));
            lemma_trail_unwound(vars0, self.variables@, trail0, place0, levels0, target, stop);
        }
    }
}

/// Cutting the trail back to where the depth above `target` begins leaves a
/// trail that is in order for the depth `target`.
pub(crate) proof fn lemma_trail_unwound(
    before: Seq<Variable>,
    after: Seq<Variable>,
    trail: Seq<VariableId>,
    place: Seq<int>,
    levels: Seq<int>,
    target: int,
    stop: int,
)
    requires
        levels.len() <= usize::MAX,
        trail_ok(before, trail, place, levels, levels.len() as usize),
        1 <= target <= levels.len(),
        stop == if target < levels.len() {
            levels[target]
        } else {
            trail.len() as int
        },
        unwound(before, after, trail, place, stop),
    ensures
        trail_ok(after, trail.take(stop), place, levels.take(target), target as usize),
{
    let cut = trail.take(stop);
    let lv = levels.take(target);
    assert(levels[target - 1] < stop);
    assert forall|i: int| 0 <= i < cut.len() implies (#[trigger] cut[i]).0 < after.len()
        && after[cut[i].0 as int].assigned() && place[cut[i].0 as int] == i by {
        assert(cut[i] == trail[i]);
        assert(after[trail[i].0 as int] == before[trail[i].0 as int]);
    }
    assert forall|i: int| 0 <= i < cut.len() implies #[trigger] entry_ok(after, cut, lv, i) by {
        assert(cut[i] == trail[i]);
        assert(entry_ok(before, trail, levels, i));
        assert(after[trail[i].0 as int] == before[trail[i].0 as int]);
        let d = before[trail[i].0 as int].depth.0 as int;
        if d > target {
            assert(levels[d - 1] <= i);
            if target < d - 1 {
                assert(levels[target] < levels[d - 1]);
            }
        }
    }
    assert forall|v: int| 0 <= v < after.len() && (#[trigger] after[v]).assigned() implies after[v].depth.0
        <= target && (on_trail(cut, place, v) || after[v].depth.0 == 0) by {
        assert(after[v] == before[v]);
        assert(before[v].assigned());
        if on_trail(trail, place, v) {
            assert(place[v] < stop);
            assert(cut[place[v]] == trail[place[v]]);
            assert(entry_ok(before, trail, levels, place[v]));
            let d = before[v].depth.0 as int;
            if d > target {
                assert(levels[d - 1] <= place[v]);
                if target < d - 1 {
                    assert(levels[target] < levels[d - 1]);
                }
            }
        }
    }
    assert forall|d: int| 0 <= d < lv.len() implies 0 <= #[trigger] lv[d] < cut.len() by {
        assert(lv[d] == levels[d]);
        if d < target - 1 {
            assert(levels[d] < levels[target - 1]);
        }
    }
    assert forall|d: int, e: int| 0 <= d < e < lv.len() implies lv[d] < lv[e] by {
        assert(levels[d] < levels[e]);
    }
}

/// The trail stays in order when an open variable is assigned at the current
/// depth and put at its end. Above depth 0 such a variable has a reason.
pub(crate) proof fn lemma_trail_extended(
    before: Seq<Variable>,
    after: Seq<Variable>,
    trail: Seq<VariableId>,
    place: Seq<int>,
    levels: Seq<int>,
    depth: usize,
    x: int,
)
    requires
        trail_ok(before, trail, place, levels, depth),
        depth < usize::MAX,
        0 <= x < before.len(),
        x <= usize::MAX,
        !before[x].assigned(),
        after == before.update(x, after[x]),
        after.len() == before.len(),
        after[x].depth.0 == depth,
        depth >= 1 ==> after[x].ante != usize::MAX,
    ensures
        trail_ok(
            after,
            trail.push(VariableId(x as usize)),
            place.update(x, trail.len() as int),
            levels,
            depth,
        ),
        !on_trail(trail, place, x),
{
    let trail2 = trail.push(VariableId(x as usize));
    let place2 = place.update(x, trail.len() as int);
    if on_trail(trail, place, x) {
        assert(before[trail[place[x]].0 as int].assigned());
    }
    assert forall|i: int| 0 <= i < trail2.len() implies (#[trigger] trail2[i]).0 < after.len()
        && after[trail2[i].0 as int].assigned() && place2[trail2[i].0 as int] == i by {
        if i < trail.len() {
            assert(trail2[i] == trail[i]);
            assert(before[trail[i].0 as int].assigned());
        }
    }
    assert forall|v: int| 0 <= v < after.len() && (#[trigger] after[v]).assigned() implies after[v].depth.0
        <= depth && (on_trail(trail2, place2, v) || after[v].depth.0 == 0) by {
        if v != x {
            assert(after[v] == before[v]);
            if on_trail(trail, place, v) {
                assert(trail2[place[v]] == trail[place[v]]);
            }
        }
    }
    assert forall|i: int| 0 <= i < trail2.len() implies #[trigger] entry_ok(after, trail2, levels, i) by {
        if i < trail.len() {
            assert(trail2[i] == trail[i]);
            assert(entry_ok(before, trail, levels, i));
            assert(before[trail[i].0 as int].assigned());
        } else {
            if depth >= 1 {
                assert(levels[depth - 1] < trail.len());
            }
        }
    }
    assert forall|d: int| 0 <= d < levels.len() implies 0 <= #[trigger] levels[d] < trail2.len() by {
    }
}

/// The trail stays in order when a new depth is opened with a decision.
pub(crate) proof fn lemma_trail_decided(
    before: Seq<Variable>,
    after: Seq<Variable>,
    trail: Seq<VariableId>,
    place: Seq<int>,
    levels: Seq<int>,
    depth: usize,
    x: int,
)
    requires
        trail_ok(before, trail, place, levels, depth),
        depth + 1 < usize::MAX,
        depth == 0 ==> trail.len() == 0,
        0 <= x < before.len(),
        x <= usize::MAX,
        !before[x].assigned(),
        after == before.update(x, after[x]),
        after.len() == before.len(),
        after[x].depth.0 == depth + 1,
        after[x].ante == usize::MAX,
    ensures
        trail_ok(
            after,
            trail.push(VariableId(x as usize)),
            place.update(x, trail.len() as int),
            levels.push(trail.len() as int),
            (depth + 1) as usize,
        ),
        !on_trail(trail, place, x),
{
    let trail2 = trail.push(VariableId(x as usize));
    let place2 = place.update(x, trail.len() as int);
    let levels2 = levels.push(trail.len() as int);
    if on_trail(trail, place, x) {
        assert(before[trail[place[x]].0 as int].assigned());
    }
    assert forall|i: int| 0 <= i < trail2.len() implies (#[trigger] trail2[i]).0 < after.len()
        && after[trail2[i].0 as int].assigned() && place2[trail2[i].0 as int] == i by {
        if i < trail.len() {
            assert(trail2[i] == trail[i]);
            assert(before[trail[i].0 as int].assigned());
        }
    }
    assert forall|v: int| 0 <= v < after.len() && (#[trigger] after[v]).assigned() implies after[v].depth.0
        <= depth + 1 && (on_trail(trail2, place2, v) || after[v].depth.0 == 0) by {
        if v != x {
            assert(after[v] == before[v]);
            if on_trail(trail, place, v) {
                assert(trail2[place[v]] == trail[place[v]]);
            }
        }
    }
    assert forall|i: int| 0 <= i < trail2.len() implies #[trigger] entry_ok(after, trail2, levels2, i) by {
        if i < trail.len() {
            assert(trail2[i] == trail[i]);
            assert(entry_ok(before, trail, levels, i));
            assert(before[trail[i].0 as int].assigned());
            let d = before[trail[i].0 as int].depth.0 as int;
            if d >= 1 {
                assert(levels2[d - 1] == levels[d - 1]);
            }
            if d < depth {
                assert(levels2[d] == levels[d]);
            }
        }
    }
    assert forall|d: int| 0 <= d < levels2.len() implies 0 <= #[trigger] levels2[d] < trail2.len() by {
        if d < levels.len() {
            assert(levels2[d] == levels[d]);
        }
    }
    assert forall|d: int, e: int| 0 <= d < e < levels2.len() implies levels2[d] < levels2[e] by {
        assert(levels2[d] == levels[d]);
        if e < levels.len() {
            assert(levels2[e] == levels[e]);
        }
    }
    if depth >= 1 {
        assert(levels2[0] == levels[0]);
    }
}

/// The reasons stay in order when an open variable is assigned and put at the
/// end of the trail, if that variable is a decision or has its reason.
pub(crate) proof fn lemma_reasons_extended(
    before: Seq<Variable>,
    after: Seq<Variable>,
    clauses: Seq<Clause>,
    trail: Seq<VariableId>,
    place: Seq<int>,
    x: int,
)
    requires
        reasons_ok(before, clauses, trail, place),
        place.len() == before.len(),
        forall|i: int|
            0 <= i < trail.len() ==> (#[trigger] trail[i]).0 < before.len() && before[trail[i].0 as int].assigned()
                && place[trail[i].0 as int] == i,
        0 <= x < before.len(),
        x <= usize::MAX,
        !before[x].assigned(),
        after == before.update(x, after[x]),
        after.len() == before.len(),
        forall|c: int| 0 <= c < clauses.len() ==> lits_in_range((#[trigger] clauses[c]).lits(), before.len()),
        reason_ok(
            after,
            clauses,
            trail.push(VariableId(x as usize)),
            place.update(x, trail.len() as int),
            x,
        ),
    ensures
        reasons_ok(
            after,
            clauses,
            trail.push(VariableId(x as usize)),
            place.update(x, trail.len() as int),
        ),
{
    let trail2 = trail.push(VariableId(x as usize));
    let place2 = place.update(x, trail.len() as int);
    assert forall|i: int| 0 <= i < trail2.len() implies #[trigger] reason_ok(
        after,
        clauses,
        trail2,
        place2,
        trail2[i].0 as int,
    ) by {
        if i < trail.len() {
            let v = trail[i].0 as int;
            assert(trail2[i] == trail[i]);
            assert(v != x);
            assert(after[v] == before[v]);
            assert(reason_ok(before, clauses, trail, place, trail[i].0 as int));
            if before[v].ante != usize::MAX {
                let lits = clauses[before[v].ante as int].lits();
                assert(implied_by(before, trail, place, lits, v));
                let k = choose|k: int|
                    0 <= k < lits.len() && (#[trigger] lits[k]).var() == v && lit_true(
                        before,
                        lits[k],
                    );
                assert(lit_true(after, lits[k]));
                assert forall|j: int| 0 <= j < lits.len() && (#[trigger] lits[j]).var() != v implies lit_false(
                    after,
                    lits[j],
                ) && (on_trail(trail2, place2, lits[j].var()) ==> place2[lits[j].var()] < place2[v]) by {
                    let u = lits[j].var();
                    assert(u < before.len());
                    assert(lit_false(before, lits[j]));
                    assert(u != x);
                    assert(after[u] == before[u]);
                    if on_trail(trail2, place2, u) {
                        if place[u] == trail.len() {
                            assert(trail2[place[u]].0 == x);
                        }
                        assert(trail2[place[u]] == trail[place[u]]);
                        assert(on_trail(trail, place, u));
                    }
                }
            }
        }
    }
}

/// The variable `c` is open, and among the open variables it has the largest
/// activity, and of those that have, the lowest number.
pub open(crate) spec fn is_choice(vars: Seq<Variable>, c: int) -> bool {
    &&& 0 <= c < vars.len()
    &&& !vars[c].assigned()
    &&& forall|v: int|
        0 <= v < vars.len() && !(#[trigger] vars[v]).assigned() ==> vars[v].q <= vars[c].q && (v < c
            ==> vars[v].q < vars[c].q)
}

/// The activity `q` after one update with the step `alpha`, where `boost` is
/// what a conflict at this moment would add and `age` is the number of
/// conflicts since the variable last took part in one. All are fixed-point
/// numbers: `alpha` in millionths, `q` and `boost` in millionths of millionths.
pub open spec fn updated_q(q: u64, alpha: u64, boost: u64, age: u64) -> int {
    (q as int * (1_000_000 - alpha as int)) / 1_000_000 + boost as int / (age as int + 1)
}

/// What a play adds at most: the step itself after a conflict, nine tenths of
/// it otherwise.
pub open spec fn boost_of(alpha: u64, conflict: bool) -> int {
    if conflict {
        alpha as int * 1_000_000
    } else {
        alpha as int * 900_000
    }
}

/// The activity of the variable `v` after the plays `plays` have been
/// counted, one after the other.
pub open(crate) spec fn q_after(
    q: u64,
    v: int,
    plays: Seq<VariableId>,
    alpha: u64,
    boost: u64,
    conflicts: u64,
    last: Seq<u64>,
) -> int
    decreases plays.len(),
{
    if plays.len() == 0 {
        q as int
    } else {
        let before = q_after(q, v, plays.drop_last(), alpha, boost, conflicts, last);
        if plays.last().0 == v {
            updated_q(before as u64, alpha, boost, (conflicts - last[v]) as u64)
        } else {
            before
        }
    }
}

/// An activity that is at most one stays at most one when it is updated
/// with a step of at most one.
pub(crate) proof fn lemma_updated_q_bound(q: u64, alpha: u64, boost: u64, age: u64)
    requires
        q <= Q_ONE,
        alpha <= 1_000_000,
        boost <= alpha * 1_000_000,
    ensures
        0 <= updated_q(q, alpha, boost, age) <= Q_ONE,
{
    let keep = 1_000_000 - alpha as int;
    assert(q as int * keep <= Q_ONE as int * keep) by (nonlinear_arith)
        requires
            q <= Q_ONE,
            keep >= 0,
    ;
    assert(q as int * keep >= 0) by (nonlinear_arith)
        requires
            q >= 0,
            keep >= 0,
    ;
    assert(Q_ONE as int * keep == 1_000_000 * (1_000_000 * keep)) by (nonlinear_arith)
        requires
            Q_ONE == 1_000_000_000_000u64,
    ;
    assert((q as int * keep) / 1_000_000 <= 1_000_000 * keep) by {
        vstd::arithmetic::div_mod::lemma_div_is_ordered(
            q as int * keep,
            1_000_000 * (1_000_000 * keep),
            1_000_000,
        );
        vstd::arithmetic::div_mod::lemma_div_multiples_vanish(1_000_000 * keep, 1_000_000);
    }
    assert(boost as int / (age as int + 1) <= boost as int) by {
        vstd::arithmetic::div_mod::lemma_div_is_ordered_by_denominator(
            boost as int,
            1,
            age as int + 1,
        );
    }
    assert(boost as int / (age as int + 1) >= 0) by {
        vstd::arithmetic::div_mod::lemma_div_pos_is_pos(boost as int, age as int + 1);
    }
    assert((q as int * keep) / 1_000_000 >= 0) by {
        vstd::arithmetic::div_mod::lemma_div_pos_is_pos(q as int * keep, 1_000_000);
    }
}

impl<T> Problem<T> {
    /// Decides: opens a new depth and assigns, with the phase it has stored,
    /// the open variable of the largest activity; of several, the one with
    /// the lowest number.
    pub(crate) fn decide(&mut self)
        requires
            old(self).ready(),
            old(self).applications@.len() < old(self).active_variables,
        ensures
            final(self).inv(),
            old(self).sound() ==> final(self).sound(),
            old(self).calm() ==> final(self).primed(),
            forall|v: int|
                0 <= v < old(self).variables@.len() && old(self).variables@[v].assigned()
                    ==> #[trigger] final(self).variables@[v] == old(self).variables@[v],
            final(self).variables@.len() == old(self).variables@.len(),
            final(self).depth.0 == old(self).depth.0 + 1,
            final(self).applications@.len() == old(self).applications@.len() + 1,
            final(self).levels@ == old(self).levels@.push(old(self).applications@.len() as int),
            forall|v: int|
                0 <= v < old(self).variables@.len() && v != final(self).applications@.last().0
                    ==> #[trigger] final(self).variables@[v] == old(self).variables@[v],
            final(self).variables@[final(self).applications@.last().0 as int].q == old(self).variables@[final(self).applications@.last().0 as int].q,
            final(self).variables@[final(self).applications@.last().0 as int].ante == usize::MAX,
            final(self).variables@[final(self).applications@.last().0 as int].same_watchlists(
                &old(self).variables@[final(self).applications@.last().0 as int],
            ),
            is_choice(old(self).variables@, final(self).applications@.last().0 as int),
            final(self).applications@ == old(self).applications@.push(final(self).applications@.last()),
            final(self).plays@ == old(self).plays@.push(final(self).applications@.last()),
            final(self).variables@[final(self).applications@.last().0 as int].depth.0 == final(self).depth.0,
            final(self).variables@[final(self).applications@.last().0 as int].value == old(self).variables@[final(self).applications@.last().0 as int].value,
            final(self).clauses == old(self).clauses,
            final(self).variable_names == old(self).variable_names,
            final(self).irreducible == old(self).irreducible,
            final(self).num_conflicts == old(self).num_conflicts,
            final(self).gc_count == old(self).gc_count,
            final(self).alpha == old(self).alpha,
            final(self).last_conflict == old(self).last_conflict,
            final(self).conflict_lens == old(self).conflict_lens,
            final(self).active_variables == old(self).active_variables,
            final(self).solution == old(self).solution,
            final(self).origin == old(self).origin,
            final(self).base == old(self).base,
    {
        let ghost vars0 = self.variables@;
        let mut choice: usize = 0;
        let mut best: u64 = 0;
        let mut found = false;
        let mut v: usize = 0;
        while v < self.variables.len()
            invariant
                v <= self.variables@.len(),
                *self == *old(self),
                vars0 == self.variables@,
                !found ==> forall|u: int| 0 <= u < v ==> (#[trigger] vars0[u]).assigned(),
                found ==> choice < v && !vars0[choice as int].assigned() && best
                    == vars0[choice as int].q && forall|u: int|
                    0 <= u < v && !(#[trigger] vars0[u]).assigned() ==> vars0[u].q <= best && (u
                        < choice ==> vars0[u].q < best),
            decreases self.variables@.len() - v,
        {
            if !self.variables[v].has_value() {
                let q = self.variables[v].q();
                if !found || q > best {
                    choice = v;
                    best = q;
                    found = true;
                }
            }
            v += 1;
        }
        proof {
            if !found {
                lemma_count_zero(vars0);
            }
            lemma_count_bound(vars0);
            lemma_depth_bound(vars0, self.applications@, self.place@, self.levels@, self.depth.0);
        }
        self.plays.push(VariableId::from_usize(choice));
        self.depth = VariableId::from_usize(self.depth.to_usize() + 1);
        self.variables[choice].enable(self.depth);
        self.applications.push(VariableId::from_usize(choice));
        proof {
            let vars1 = self.variables@;
            let trail0 = old(self).applications@;
            let place0 = old(self).place@;
            let levels0 = old(self).levels@;
            assert(vars1 =~= vars0.update(choice as int, vars1[choice as int]));
            lemma_trail_decided(vars0, vars1, trail0, place0, levels0, old(self).depth.0, choice as int);
            self.place = Ghost(place0.update(choice as int, trail0.len() as int));
            self.levels = Ghost(levels0.push(trail0.len() as int));
            lemma_count_update(vars0, choice as int, vars1[choice as int]);
            assert forall|u: int| 0 <= u < vars0.len() implies (#[trigger] vars1[u]).same_watchlists(
                &vars0[u],
            ) by {
            }
            lemma_watch_ok_same_lists(vars0, vars1, self.clauses@);
            assert(reason_ok(vars1, self.clauses@, self.applications@, self.place@, choice as int));
            lemma_reasons_extended(vars0, vars1, self.clauses@, trail0, place0, choice as int);
            assert forall|p: int| 0 <= p < self.plays@.len() implies (#[trigger] self.plays@[p]).0
                < self.variables@.len() by {
                if p < old(self).plays@.len() {
                    assert(self.plays@[p] == old(self).plays@[p]);
                }
            }
            if old(self).sound() {
                assert forall|v: int|
                    0 <= v < vars1.len() && (#[trigger] vars1[v]).assigned() && vars1[v].depth.0
                        == 0 implies vars0[v].assigned() && vars0[v].depth.0 == 0 && vars0[v].value
                    == vars1[v].value by {
                    if v != choice {
                        assert(vars1[v] == vars0[v]);
                    }
                }
                lemma_fixed_entailed_kept(self.origin@, vars0, vars1);
            }
            if old(self).calm() {
                assert forall|c: int| 0 <= c < self.clauses@.len() implies (#[trigger] self.clauses@[c]).wf(
                    vars0.len(),
                ) by {
                }
                assert(self.clauses.len() == self.clauses@.len());
                lemma_quiet_assigned(
                    vars0,
                    vars1,
                    self.clauses@,
                    trail0,
                    place0,
                    choice as int,
                    self.depth.0,
                );
                assert(self.applications@ =~= trail0.push(VariableId(choice)));
            }
        }
    }

    /// Counts the plays since the last update into the activities: each
    /// variable that was assigned since then moves towards the rate at which
    /// it has lately taken part in conflicts. See `updated_q`.
    pub(crate) fn update_q(&mut self, conflict: &Option<usize>)
        requires
            old(self).inv(),
        ensures
            final(self).inv(),
            old(self).sound() ==> final(self).sound(),
            old(self).calm() ==> final(self).calm(),
            old(self).troubled() ==> final(self).troubled(),
            final(self).plays@.len() == 0,
            final(self).variables@.len() == old(self).variables@.len(),
            forall|v: int|
                0 <= v < old(self).variables@.len() ==> {
                    &&& (#[trigger] final(self).variables@[v]).q == q_after(
                        old(self).variables@[v].q,
                        v,
                        old(self).plays@,
                        old(self).alpha,
                        boost_of(old(self).alpha, conflict.is_some()) as u64,
                        old(self).num_conflicts,
                        old(self).last_conflict@,
                    )
                    &&& final(self).variables@[v].value == old(self).variables@[v].value
                    &&& final(self).variables@[v].depth == old(self).variables@[v].depth
                    &&& final(self).variables@[v].ante == old(self).variables@[v].ante
                    &&& final(self).variables@[v].same_watchlists(&old(self).variables@[v])
                },
            final(self).applications == old(self).applications,
            final(self).depth == old(self).depth,
            final(self).place == old(self).place,
            final(self).levels == old(self).levels,
            final(self).clauses == old(self).clauses,
            final(self).variable_names == old(self).variable_names,
            final(self).irreducible == old(self).irreducible,
            final(self).num_conflicts == old(self).num_conflicts,
            final(self).gc_count == old(self).gc_count,
            final(self).alpha == old(self).alpha,
            final(self).last_conflict == old(self).last_conflict,
            final(self).conflict_lens == old(self).conflict_lens,
            final(self).active_variables == old(self).active_variables,
            final(self).solution == old(self).solution,
            final(self).origin == old(self).origin,
            final(self).base == old(self).base,
    {
        let ghost vars0 = self.variables@;
        let ghost plays0 = self.plays@;
        let boost: u64 = if conflict.is_some() {
            self.alpha * 1_000_000
        } else {
            self.alpha * 900_000
        };
        let keep: u64 = 1_000_000 - self.alpha;
        let mut p: usize = 0;
        while p < self.plays.len()
            invariant
                p <= self.plays@.len(),
                old(self).inv(),
                vars0 == old(self).variables@,
                plays0 == old(self).plays@,
                self.plays@ == plays0,
                keep == 1_000_000 - self.alpha,
                boost == boost_of(self.alpha, conflict.is_some()),
                boost <= self.alpha * 1_000_000,
                self.variables@.len() == vars0.len(),
                forall|v: int|
                    0 <= v < vars0.len() ==> {
                        &&& (#[trigger] self.variables@[v]).q == q_after(
                            vars0[v].q,
                            v,
                            plays0.take(p as int),
                            self.alpha,
                            boost,
                            self.num_conflicts,
                            self.last_conflict@,
                        )
                        &&& self.variables@[v].q <= Q_ONE
                        &&& self.variables@[v].value == vars0[v].value
                        &&& self.variables@[v].depth == vars0[v].depth
                        &&& self.variables@[v].ante == vars0[v].ante
                        &&& self.variables@[v].same_watchlists(&vars0[v])
                    },
                self.applications == old(self).applications,
                self.depth == old(self).depth,
                self.place == old(self).place,
                self.levels == old(self).levels,
                self.clauses == old(self).clauses,
                self.variable_names == old(self).variable_names,
                self.irreducible == old(self).irreducible,
                self.num_conflicts == old(self).num_conflicts,
                self.gc_count == old(self).gc_count,
                self.alpha == old(self).alpha,
                self.last_conflict == old(self).last_conflict,
                self.conflict_lens == old(self).conflict_lens,
                self.active_variables == old(self).active_variables,
                self.solution == old(self).solution,
                self.origin == old(self).origin,
                self.base == old(self).base,
            decreases self.plays@.len() - p,
        {
            let id = self.plays[p].to_usize();
            let age: u64 = self.num_conflicts - self.last_conflict[id];
            let q: u64 = self.variables[id].q();
            proof {
                lemma_updated_q_bound(q, self.alpha, boost, age);
                assert(q as int * keep as int <= Q_ONE as int * 1_000_000) by (nonlinear_arith)
                    requires
                        q <= Q_ONE,
                        0 <= keep <= 1_000_000,
                ;
                assert(plays0.take(p + 1).drop_last() =~= plays0.take(p as int));
            }
            let kept: u64 = q * keep / 1_000_000;
            let gain: u64 = if age == u64::MAX {
                0
            } else {
                boost / (age + 1)
            };
            proof {
                if age == u64::MAX {
                    assert(boost as int / (age as int + 1) == 0) by {
                        vstd::arithmetic::div_mod::lemma_basic_div(boost as int, age as int + 1);
                    }
                }
            }
            let ghost vars1 = self.variables@;
            *self.variables[id].q_mut() = kept + gain;
            proof {
                assert forall|v: int| 0 <= v < vars0.len() implies {
                    &&& (#[trigger] self.variables@[v]).q == q_after(
                        vars0[v].q,
                        v,
                        plays0.take(p + 1),
                        self.alpha,
                        boost,
                        self.num_conflicts,
                        self.last_conflict@,
                    )
                    &&& self.variables@[v].q <= Q_ONE
                    &&& self.variables@[v].value == vars0[v].value
                    &&& self.variables@[v].depth == vars0[v].depth
                    &&& self.variables@[v].ante == vars0[v].ante
                    &&& self.variables@[v].same_watchlists(&vars0[v])
                } by {
                    if v != id {
                        assert(self.variables@[v] == vars1[v]);
                    }
                }
            }
            p += 1;
        }
        self.plays.clear();
        proof {
            assert(plays0.take(plays0.len() as int) =~= plays0);
            let vars = self.variables@;
            lemma_watch_ok_same_lists(vars0, vars, self.clauses@);
            lemma_same_values_inv(vars0, vars, self.clauses@, self.applications@, self.place@, self.levels@, self.depth.0);
            if old(self).sound() {
                lemma_fixed_entailed_kept(self.origin@, vars0, vars);
            }
            self.lemma_values_kept(old(self));
        }
    }

    /// The clauses are guarded and anchored as they were while the values
    /// and the watch lists stay.
    pub(crate) proof fn lemma_values_kept(&self, before: &Problem<T>)
        requires
            before.inv(),
            self.clauses == before.clauses,
            self.depth == before.depth,
            self.variables@.len() == before.variables@.len(),
            forall|v: int|
                0 <= v < before.variables@.len() ==> (#[trigger] self.variables@[v]).value
                    == before.variables@[v].value && self.variables@[v].depth
                    == before.variables@[v].depth && self.variables@[v].ante
                    == before.variables@[v].ante && self.variables@[v].same_watchlists(
                    &before.variables@[v],
                ),
        ensures
            before.calm() ==> self.calm(),
            before.troubled() ==> self.troubled(),
    {
        let va = before.variables@;
        let vb = self.variables@;
        let clauses = self.clauses@;
        if before.calm() {
            assert forall|c: int| 0 <= c < clauses.len() implies #[trigger] quiet_at(vb, clauses, c) by {
                self.lemma_clause_kept(before, c);
                assert(quiet_at(va, clauses, c));
            }
        }
        if before.troubled() {
            assert forall|c: int| 0 <= c < clauses.len() implies #[trigger] stirred_at(
                vb,
                clauses,
                self.depth.0,
                c,
            ) by {
                self.lemma_clause_kept(before, c);
                assert(stirred_at(va, clauses, before.depth.0, c));
            }
        }
    }

    /// One clause is guarded, anchored and at home as it was while the values
    /// and the watch lists stay.
    pub(crate) proof fn lemma_clause_kept(&self, before: &Problem<T>, c: int)
        requires
            before.inv(),
            self.clauses == before.clauses,
            0 <= c < self.clauses@.len(),
            self.variables@.len() == before.variables@.len(),
            forall|v: int|
                0 <= v < before.variables@.len() ==> (#[trigger] self.variables@[v]).value
                    == before.variables@[v].value && self.variables@[v].depth
                    == before.variables@[v].depth && self.variables@[v].ante
                    == before.variables@[v].ante && self.variables@[v].same_watchlists(
                    &before.variables@[v],
                ),
        ensures
            self.clauses@[c].guarded(self.variables@) == self.clauses@[c].guarded(before.variables@),
            self.clauses@[c].anchored(self.variables@) == self.clauses@[c].anchored(before.variables@),
            has_home(self.clauses@[c], c as usize, self.variables@) == has_home(
                self.clauses@[c],
                c as usize,
                before.variables@,
            ),
            lit_false(self.variables@, self.clauses@[c].lit1()) == lit_false(
                before.variables@,
                self.clauses@[c].lit1(),
            ),
            lit_depth(self.variables@, self.clauses@[c].lit1()) == lit_depth(
                before.variables@,
                self.clauses@[c].lit1(),
            ),
    {
        let va = before.variables@;
        let vb = self.variables@;
        let clause = self.clauses@[c];
        let lits = clause.lits();
        let cid = c as usize;
        assert(clause.wf(va.len()));
        assert forall|v: int, n: bool| 0 <= v < va.len() implies #[trigger] holds(va, cid, v, n)
            == holds(vb, cid, v, n) by {
            assert(vb[v].same_watchlists(&va[v]));
        }
        let at = set![
            crate::cnf::watching::place(clause.lit0()),
            crate::cnf::watching::place(clause.lit1()),
        ];
        if clause.linked(cid, va) {
            assert forall|v: int, n: bool| 0 <= v < vb.len() implies (#[trigger] holds(vb, cid, v, n)
                <==> at.contains((v, n))) by {
                assert(holds(va, cid, v, n) == holds(vb, cid, v, n));
            }
        }
        if clause.linked(cid, vb) {
            assert forall|v: int, n: bool| 0 <= v < va.len() implies (#[trigger] holds(va, cid, v, n)
                <==> at.contains((v, n))) by {
                assert(holds(va, cid, v, n) == holds(vb, cid, v, n));
            }
        }
        assert forall|k: int| 0 <= k < lits.len() implies lit_true(va, #[trigger] lits[k]) == lit_true(
            vb,
            lits[k],
        ) && lit_depth(va, lits[k]) == lit_depth(vb, lits[k]) && lit_assigned(va, lits[k])
            == lit_assigned(vb, lits[k]) by {
            assert(vb[lits[k].var()].depth == va[lits[k].var()].depth);
        }
        assert(lits[clause.w0()] == clause.lit0());
        assert(lits[clause.w1()] == clause.lit1());
        if clause.fixed_true(va) {
            let k = choose|k: int|
                0 <= k < lits.len() && lit_true(va, #[trigger] lits[k]) && lit_depth(va, lits[k]) == 0;
            assert(lit_true(vb, lits[k]));
        }
        if clause.fixed_true(vb) {
            let k = choose|k: int|
                0 <= k < lits.len() && lit_true(vb, #[trigger] lits[k]) && lit_depth(vb, lits[k]) == 0;
            assert(lit_true(va, lits[k]));
        }
        if clause.guarded(va) && lit_assigned(va, clause.lit1()) {
            let k = choose|k: int|
                0 <= k < lits.len() && lit_true(va, #[trigger] lits[k]) && lit_depth(va, lits[k])
                    <= lit_depth(va, clause.lit1());
            assert(lit_true(vb, lits[k]));
        }
        if clause.guarded(vb) && lit_assigned(vb, clause.lit1()) {
            let k = choose|k: int|
                0 <= k < lits.len() && lit_true(vb, #[trigger] lits[k]) && lit_depth(vb, lits[k])
                    <= lit_depth(vb, clause.lit1());
            assert(lit_true(va, lits[k]));
        }
    }
}

/// The depth is no larger than the trail is long, and the trail no longer
/// than there are variables.
pub(crate) proof fn lemma_depth_bound(
    vars: Seq<Variable>,
    trail: Seq<VariableId>,
    place: Seq<int>,
    levels: Seq<int>,
    depth: usize,
)
    requires
        trail_ok(vars, trail, place, levels, depth),
    ensures
        depth <= trail.len(),
{
    lemma_ascending_bound(levels, trail.len() as int);
}

/// An ascending sequence of numbers from 0 up to `bound`, without `bound`, is
/// no longer than `bound`.
pub(crate) proof fn lemma_ascending_bound(s: Seq<int>, bound: int)
    requires
        forall|d: int| 0 <= d < s.len() ==> 0 <= #[trigger] s[d] < bound,
        forall|d: int, e: int| 0 <= d < e < s.len() ==> s[d] < s[e],
    ensures
        s.len() <= bound || s.len() == 0,
        forall|d: int| 0 <= d < s.len() ==> d <= #[trigger] s[d],
    decreases s.len(),
{
    if s.len() > 0 {
        let rest = s.drop_last();
        assert forall|d: int| 0 <= d < rest.len() implies 0 <= #[trigger] rest[d] < bound by {
            assert(rest[d] == s[d]);
        }
        assert forall|d: int, e: int| 0 <= d < e < rest.len() implies rest[d] < rest[e] by {
            assert(s[d] < s[e]);
        }
        lemma_ascending_bound(rest, bound);
        assert forall|d: int| 0 <= d < s.len() implies d <= #[trigger] s[d] by {
            if d < rest.len() {
                assert(rest[d] == s[d]);
            } else if d > 0 {
                assert(rest[d - 1] == s[d - 1]);
                assert(s[d - 1] < s[d]);
            }
        }
        assert(s.len() - 1 <= s[s.len() - 1]);
    }
}

/// While depths, values, reasons and watch lists stay, the trail and the
/// reasons stay in order, and as many variables are open.
pub(crate) proof fn lemma_same_values_inv(
    before: Seq<Variable>,
    after: Seq<Variable>,
    clauses: Seq<Clause>,
    trail: Seq<VariableId>,
    place: Seq<int>,
    levels: Seq<int>,
    depth: usize,
)
    requires
        before.len() == after.len(),
        forall|v: int|
            0 <= v < before.len() ==> (#[trigger] after[v]).value == before[v].value && after[v].depth
                == before[v].depth && after[v].ante == before[v].ante,
        trail_ok(before, trail, place, levels, depth),
        reasons_ok(before, clauses, trail, place),
        forall|c: int| 0 <= c < clauses.len() ==> lits_in_range((#[trigger] clauses[c]).lits(), before.len()),
    ensures
        trail_ok(after, trail, place, levels, depth),
        reasons_ok(after, clauses, trail, place),
        count_unassigned(after) == count_unassigned(before),
{
    lemma_same_values_inv2(before, after, clauses, clauses, trail, place, levels, depth);
}

/// The same, where the clauses too may have changed, but not their literals.
pub(crate) proof fn lemma_same_values_inv2(
    before: Seq<Variable>,
    after: Seq<Variable>,
    clauses: Seq<Clause>,
    clauses2: Seq<Clause>,
    trail: Seq<VariableId>,
    place: Seq<int>,
    levels: Seq<int>,
    depth: usize,
)
    requires
        before.len() == after.len(),
        forall|v: int|
            0 <= v < before.len() ==> (#[trigger] after[v]).value == before[v].value && after[v].depth
                == before[v].depth && after[v].ante == before[v].ante,
        trail_ok(before, trail, place, levels, depth),
        reasons_ok(before, clauses, trail, place),
        forall|c: int| 0 <= c < clauses.len() ==> lits_in_range((#[trigger] clauses[c]).lits(), before.len()),
        clauses2.len() == clauses.len(),
        forall|c: int| 0 <= c < clauses.len() ==> (#[trigger] clauses2[c]).lits() == clauses[c].lits(),
    ensures
        trail_ok(after, trail, place, levels, depth),
        reasons_ok(after, clauses2, trail, place),
        count_unassigned(after) == count_unassigned(before),
{
    assert forall|v: int| 0 <= v < before.len() implies (#[trigger] before[v]).assigned()
        == after[v].assigned() by {
        assert(after[v].depth == before[v].depth);
    }
    lemma_count_same(before, after);
    assert forall|i: int| 0 <= i < trail.len() implies (#[trigger] trail[i]).0 < after.len()
        && after[trail[i].0 as int].assigned() && place[trail[i].0 as int] == i by {
        assert(before[trail[i].0 as int].assigned());
    }
    assert forall|v: int| 0 <= v < after.len() && (#[trigger] after[v]).assigned() implies after[v].depth.0
        <= depth && (on_trail(trail, place, v) || after[v].depth.0 == 0) by {
        assert(before[v].assigned());
    }
    assert forall|i: int| 0 <= i < trail.len() implies #[trigger] entry_ok(after, trail, levels, i) by {
        assert(entry_ok(before, trail, levels, i));
        assert(after[trail[i].0 as int].depth == before[trail[i].0 as int].depth);
    }
    assert forall|i: int| 0 <= i < trail.len() implies #[trigger] reason_ok(
        after,
        clauses2,
        trail,
        place,
        trail[i].0 as int,
    ) by {
        let v = trail[i].0 as int;
        assert(reason_ok(before, clauses, trail, place, trail[i].0 as int));
        assert(after[v].ante == before[v].ante);
        if before[v].ante != usize::MAX {
            let lits = clauses[before[v].ante as int].lits();
            assert(clauses2[before[v].ante as int].lits() == lits);
            assert(implied_by(before, trail, place, lits, v));
            let k = choose|k: int|
                0 <= k < lits.len() && (#[trigger] lits[k]).var() == v && lit_true(before, lits[k]);
            assert(after[v].value == before[v].value);
            assert(lit_true(after, lits[k]));
            assert forall|j: int| 0 <= j < lits.len() && (#[trigger] lits[j]).var() != v implies lit_false(
                after,
                lits[j],
            ) && (on_trail(trail, place, lits[j].var()) ==> place[lits[j].var()] < place[v]) by {
                let u = lits[j].var();
                assert(u < before.len());
                assert(lit_false(before, lits[j]));
                assert(after[u].value == before[u].value);
            }
        }
    }
}

/// The watch lists are in order after `apply` has worked on the clause `cid`.
pub(crate) proof fn lemma_watch_after_apply(
    vars0: Seq<Variable>,
    vars1: Seq<Variable>,
    clauses0: Seq<Clause>,
    clauses1: Seq<Clause>,
    cid: usize,
)
    requires
        watch_ok(vars0, clauses0),
        cid < clauses0.len(),
        clauses0.len() <= usize::MAX,
        clauses1 == clauses0.update(cid as int, clauses1[cid as int]),
        clauses1[cid as int].wf(vars0.len()),
        vars1.len() == vars0.len(),
        lists_distinct(vars1),
        other_links_kept(vars0, vars1, cid),
        clauses1[cid as int].linked(cid, vars1) || unlinked(vars1, cid),
    ensures
        watch_ok(vars1, clauses1),
{
    assert forall|c: int| 0 <= c < clauses1.len() implies (#[trigger] clauses1[c]).wf(vars1.len())
        && (clauses1[c].linked(c as usize, vars1) || unlinked(vars1, c as usize)) by {
        if c != cid {
            assert(clauses1[c] == clauses0[c]);
            let x = c as usize;
            if clauses0[c].linked(x, vars0) {
                assert forall|v: int, n: bool| 0 <= v < vars1.len() implies (#[trigger] holds(
                    vars1,
                    x,
                    v,
                    n,
                ) <==> set![
                    crate::cnf::watching::place(clauses0[c].lit0()),
                    crate::cnf::watching::place(clauses0[c].lit1()),
                ].contains((v, n))) by {
                    assert(holds(vars0, x, v, n) == holds(vars1, x, v, n));
                }
            } else {
                assert forall|v: int, n: bool| 0 <= v < vars1.len() implies !#[trigger] holds(
                    vars1,
                    x,
                    v,
                    n,
                ) by {
                    assert(holds(vars0, x, v, n) == holds(vars1, x, v, n));
                }
            }
        }
    }
    assert forall|x: usize, v: int, n: bool|
        0 <= v < vars1.len() && #[trigger] holds(vars1, x, v, n) implies x < clauses1.len() by {
        if x != cid {
            assert(holds(vars0, x, v, n) == holds(vars1, x, v, n));
        }
    }
}

/// The watch lists are in order when clauses have changed in nothing but
/// their glue.
pub(crate) proof fn lemma_watch_same_clauses(vars: Seq<Variable>, a: Seq<Clause>, b: Seq<Clause>)
    requires
        watch_ok(vars, a),
        a.len() == b.len(),
        forall|c: int|
            0 <= c < a.len() ==> (#[trigger] b[c]).lits() == a[c].lits() && b[c].w0() == a[c].w0()
                && b[c].w1() == a[c].w1(),
    ensures
        watch_ok(vars, b),
{
    assert forall|c: int| 0 <= c < b.len() implies (#[trigger] b[c]).wf(vars.len()) && (b[c].linked(
        c as usize,
        vars,
    ) || unlinked(vars, c as usize)) by {
        assert(a[c].wf(vars.len()));
        assert(b[c].lit0() == a[c].lit0());
        assert(b[c].lit1() == a[c].lit1());
    }
}

impl<T> Problem<T> {
    /// The clauses have the literals they had in `before`, and no larger glue.
    pub open(crate) spec fn same_clauses(&self, before: &Problem<T>) -> bool {
        &&& self.clauses@.len() == before.clauses@.len()
        &&& forall|c: int|
            0 <= c < self.clauses@.len() ==> (#[trigger] self.clauses@[c]).lits()
                == before.clauses@[c].lits() && self.clauses@[c].glue.0 <= before.clauses@[c].glue.0
    }

    /// Nothing but the search state proper differs from `before`.
    pub open(crate) spec fn same_frame(&self, before: &Problem<T>) -> bool {
        &&& self.variable_names == before.variable_names
        &&& self.irreducible == before.irreducible
        &&& self.num_conflicts == before.num_conflicts
        &&& self.gc_count == before.gc_count
        &&& self.alpha == before.alpha
        &&& self.last_conflict == before.last_conflict
        &&& self.conflict_lens == before.conflict_lens
        &&& self.active_variables == before.active_variables
        &&& self.solution == before.solution
        &&& self.origin == before.origin
        &&& self.base == before.base
        &&& self.depth == before.depth
        &&& self.levels == before.levels
    }

    /// The trail of `before` is the beginning of the trail; what was assigned
    /// is assigned as it was; activities are as they were; what has come to
    /// the trail was assigned at the current depth and names the clause that
    /// has forced it.
    pub open(crate) spec fn extends(&self, before: &Problem<T>) -> bool {
        &&& self.variables@.len() == before.variables@.len()
        &&& self.applications@.len() >= before.applications@.len()
        &&& self.applications@.take(before.applications@.len() as int) == before.applications@
        &&& forall|v: int|
            0 <= v < self.variables@.len() ==> (#[trigger] self.variables@[v]).q
                == before.variables@[v].q && (before.variables@[v].assigned()
                ==> self.variables@[v].same_state(&before.variables@[v])) && (
            !self.variables@[v].assigned() ==> self.variables@[v].value == before.variables@[v].value)
        &&& forall|i: int|
            before.applications@.len() <= i < self.applications@.len()
                ==> self.variables@[(#[trigger] self.applications@[i]).0 as int].depth == self.depth
                && self.variables@[self.applications@[i].0 as int].ante != usize::MAX
    }

    /// Works out what follows from the last assignment on the trail, and from
    /// what follows from that.
    ///
    /// Goes along the trail from its last entry. For each variable, the
    /// clauses that watch the literal which the variable's value has made
    /// false are gone through with `apply`. A clause that has become unit
    /// sets its open literal's variable, at the current depth and with the
    /// clause as its reason; the variable goes to the end of the trail. A
    /// clause that is falsified ends the work: its number is returned.
    pub(crate) fn propagate(&mut self) -> (conflict: Option<usize>)
        requires
            old(self).inv(),
            old(self).applications@.len() > 0,
            old(self).variables@[old(self).applications@.last().0 as int].depth == old(self).depth,
        ensures
            final(self).inv(),
            old(self).sound() ==> final(self).sound(),
            final(self).same_frame(old(self)),
            final(self).same_clauses(old(self)),
            final(self).extends(old(self)),
            match conflict {
                Some(cid) => final(self).conflicting(cid),
                None => true,
            },
            old(self).primed() ==> if conflict.is_some() {
                final(self).troubled()
            } else {
                final(self).calm()
            },
    {
        let ghost mut done = Set::<usize>::empty();
        let mut ai: usize = self.applications.len() - 1;
        let mut id: usize = self.applications[ai].to_usize();
        let ghost start = ai as int;
        proof {
            lemma_count_bound(self.variables@);
            lemma_depth_bound(self.variables@, self.applications@, self.place@, self.levels@, self.depth.0);
            assert(self.applications@.take(self.applications@.len() as int) =~= self.applications@);
        }
        loop
            invariant_except_break
                start <= ai < self.applications@.len(),
                id == self.applications@[ai as int].0,
                self.variables@[id as int].depth == self.depth,
                old(self).primed() ==> self.flows(ai as int, Set::<usize>::empty()),
            invariant
                self.inv(),
                old(self).primed() ==> self.flows(ai as int, Set::<usize>::empty()),
                ai <= self.applications@.len(),
                old(self).sound() ==> self.sound(),
                self.same_frame(old(self)),
                self.same_clauses(old(self)),
                self.extends(old(self)),
                old(self).inv(),
                start == old(self).applications@.len() - 1,
                self.depth.0 + 1 < usize::MAX,
            ensures
                ai == self.applications@.len(),
            decreases self.variables@.len() - ai,
        {
            let val = self.variables[id].get_value();
            proof {
                done = Set::<usize>::empty();
            }
            if self.variables[id].watching(val).len() != 0 {
                let mut ci: usize = 0;
                let mut cid: usize = self.variables[id].watching(val)[ci];
                loop
                    invariant_except_break
                        ci < self.variables@[id as int].watchlist(val).len(),
                        cid == self.variables@[id as int].watchlist(val)[ci as int],
                    invariant
                        old(self).primed() ==> self.flows(ai as int, done),
                        ci <= self.variables@[id as int].watchlist(val).len(),
                        forall|k: int|
                            0 <= k < ci ==> done.contains(
                                #[trigger] self.variables@[id as int].watchlist(val)[k],
                            ),
                        self.inv(),
                        old(self).sound() ==> self.sound(),
                        self.same_frame(old(self)),
                        self.same_clauses(old(self)),
                        self.extends(old(self)),
                        old(self).inv(),
                        start == old(self).applications@.len() - 1,
                        start <= ai < self.applications@.len(),
                        id == self.applications@[ai as int].0,
                        self.variables@[id as int].depth == self.depth,
                        self.variables@[id as int].value == val,
                        self.variables@[id as int].assigned(),
                        self.depth.0 + 1 < usize::MAX,
                    ensures
                        forall|k: int|
                            0 <= k < self.variables@[id as int].watchlist(val).len() ==> done.contains(
                                #[trigger] self.variables@[id as int].watchlist(val)[k],
                            ),
                    decreases self.variables@[id as int].watchlist(val).len() - ci,
                {
                    let ghost before = *self;
                    let ghost list0 = self.variables@[id as int].watchlist(val);
                    proof {
                        assert(holds(self.variables@, cid, id as int, val)) by {
                            assert(list0[ci as int] == cid);
                        }
                    }
                    proof {
                        assert(before.working(ai as int)) by {
                            assert forall|i: int|
                                ai <= i < before.applications@.len() implies before.variables@[(
                            #[trigger] before.applications@[i]).0 as int].depth.0
                                == before.depth.0 by {
                                if i >= old(self).applications@.len() {
                                } else {
                                    assert(i == ai);
                                }
                            }
                        }
                    }
                    let conflict = self.visit(id, val, cid, Ghost(ai as int), Ghost(done));
                    proof {
                        let list1 = self.variables@[id as int].watchlist(val);
                        if list1 != list0 {
                            crate::cnf::watching::lemma_without_last(list0, cid);
                        }
                        assert forall|k: int| 0 <= k < ci implies done.insert(cid).contains(
                            #[trigger] list1[k],
                        ) by {
                            assert(done.contains(list0[k]));
                            if list1 != list0 {
                                assert(list1[k] == list0[k]);
                            }
                        }
                        done = done.insert(cid);
                        lemma_extends_chain(*old(self), before, *self);
                        assert(self.applications@[ai as int] == before.applications@[ai as int]) by {
                            assert(self.applications@.take(before.applications@.len() as int)[ai as int]
                                == before.applications@[ai as int]);
                        }
                        if self.variables@[id as int].watchlist(val) != list0 {
                            crate::cnf::watching::lemma_without_last(list0, cid);
                        }
                    }
                    if conflict {
                        return Some(cid);
                    }
                    let list = self.variables[id].watching(val);
                    if ci < list.len() {
                        let next = list[ci];
                        if next == cid {
                            ci += 1;
                            if ci < list.len() {
                                cid = list[ci];
                            } else {
                                break ;
                            }
                        } else {
                            cid = next;
                        }
                    } else {
                        break ;
                    }
                }
            }
            proof {
                lemma_count_bound(self.variables@);
                if old(self).primed() {
                    assert forall|c: int| 0 <= c < self.clauses@.len() implies (#[trigger] self.clauses@[c]).wf(
                        self.variables@.len(),
                    ) by {
                    }
                    assert(self.clauses.len() == self.clauses@.len());
                    lemma_flow_on(
                        self.variables@,
                        self.clauses@,
                        self.applications@,
                        self.place@,
                        ai as int,
                        done,
                        self.variables@[id as int].watchlist(val),
                    );
                }
            }
            ai += 1;
            if ai < self.applications.len() {
                id = self.applications[ai].to_usize();
            } else {
                break ;
            }
        }
        proof {
            if old(self).primed() {
                lemma_flowed(
                    self.variables@,
                    self.clauses@,
                    self.applications@,
                    self.place@,
                    Set::<usize>::empty(),
                );
            }
        }
        None
    }

    /// What holds of the clauses while the trail is worked on at the place
    /// `ai`, the clauses `done` having been looked at for it.
    pub open(crate) spec fn flows(&self, ai: int, done: Set<usize>) -> bool {
        flowing(self.variables@, self.clauses@, self.applications@, self.place@, ai, done)
    }

    /// The trail is worked on at the place `ai`: from there on it holds
    /// variables that were assigned at the current depth.
    pub open(crate) spec fn working(&self, ai: int) -> bool {
        &&& 0 <= ai < self.applications@.len()
        &&& forall|i: int|
            ai <= i < self.applications@.len() ==> self.variables@[(
            #[trigger] self.applications@[i]).0 as int].depth.0 == self.depth.0
    }

    /// All consequences are worked out: every clause is guarded and anchored.
    pub open(crate) spec fn calm(&self) -> bool {
        quiet(self.variables@, self.clauses@)
    }

    /// A conflict has come up: a clause that is not guarded has its second
    /// watched literal at the current depth.
    pub open(crate) spec fn troubled(&self) -> bool {
        stirred(self.variables@, self.clauses@, self.depth.0)
    }

    /// The last assignment on the trail has been made in a calm state, and
    /// its consequences are still to be worked out.
    pub open(crate) spec fn primed(&self) -> bool {
        self.flows(self.applications@.len() - 1, Set::<usize>::empty())
    }

    /// The clause `cid` is falsified, and one of its literals was assigned at
    /// the current depth.
    pub open(crate) spec fn conflicting(&self, cid: usize) -> bool {
        &&& cid < self.clauses@.len()
        &&& self.clauses@[cid as int].falsified(self.variables@)
        &&& exists|k: int|
            0 <= k < self.clauses@[cid as int].lits().len() && lit_depth(
                self.variables@,
                #[trigger] self.clauses@[cid as int].lits()[k],
            ) == self.depth.0
    }

    /// Lets the clause `cid`, which watches the literal that the value `val`
    /// of the variable `id` has made false, do what `apply` describes. Where
    /// the clause has become unit, its open literal is set. Returns whether
    /// the clause is falsified.
    #[verifier::rlimit(80)]
    pub(crate) fn visit(
        &mut self,
        id: usize,
        val: bool,
        cid: usize,
        Ghost(ai): Ghost<int>,
        Ghost(done): Ghost<Set<usize>>,
    ) -> (conflict: bool)
        requires
            old(self).inv(),
            id < old(self).variables@.len(),
            old(self).variables@[id as int].assigned(),
            old(self).variables@[id as int].value == val,
            old(self).variables@[id as int].depth == old(self).depth,
            holds(old(self).variables@, cid, id as int, val),
            old(self).depth.0 + 1 < usize::MAX,
        ensures
            final(self).inv(),
            old(self).sound() ==> final(self).sound(),
            final(self).same_frame(old(self)),
            final(self).same_clauses(old(self)),
            final(self).extends(old(self)),
            crate::cnf::watching::kept_or_cut(
                old(self).variables@[id as int].watchlist(val),
                final(self).variables@[id as int].watchlist(val),
                cid,
            ),
            conflict ==> final(self).conflicting(cid),
            old(self).flows(ai, done) && old(self).working(ai) ==> if conflict {
                final(self).troubled()
            } else {
                final(self).flows(ai, done.insert(cid))
            },
    {
        proof {
            assert(self.applications@.take(self.applications@.len() as int) =~= self.applications@);
        }
        let ghost before = *self;
        let ghost vars0 = self.variables@;
        let ghost clauses0 = self.clauses@;
        let ghost list0 = vars0[id as int].watchlist(val);
        let ghost tracking = self.flows(ai, done) && self.working(ai);
        proof {
            assert(cid < clauses0.len());
            assert(self.clauses.len() == clauses0.len());
            assert(cid < usize::MAX);
            assert(clauses0[cid as int].linked(cid, vars0));
            if tracking {
                lemma_waiting_premises(
                    vars0,
                    clauses0,
                    self.applications@,
                    self.place@,
                    self.levels@,
                    self.depth.0,
                    ai,
                    done,
                    cid,
                );
            }
        }
        let outcome = self.clauses[cid].apply(cid, &mut self.variables);
        let ghost vars1 = self.variables@;
        let ghost clauses1 = self.clauses@;
        let ghost list1 = vars1[id as int].watchlist(val);
        proof {
            assert(clauses1 =~= clauses0.update(cid as int, clauses1[cid as int]));
            lemma_watch_after_apply(vars0, vars1, clauses0, clauses1, cid);
            assert forall|c: int| 0 <= c < clauses0.len() implies lits_in_range(
                (#[trigger] clauses0[c]).lits(),
                vars0.len(),
            ) by {
                assert(clauses0[c].wf(vars0.len()));
            }
            assert forall|c: int| 0 <= c < clauses0.len() implies (#[trigger] clauses1[c]).lits()
                == clauses0[c].lits() by {
            }
            assert forall|v: int| 0 <= v < vars0.len() implies (#[trigger] vars1[v]).value
                == vars0[v].value && vars1[v].depth == vars0[v].depth && vars1[v].ante
                == vars0[v].ante by {
                assert(vars1[v].same_state(&vars0[v]));
            }
            lemma_same_values_inv2(
                vars0,
                vars1,
                clauses0,
                clauses1,
                self.applications@,
                self.place@,
                self.levels@,
                self.depth.0,
            );
            assert forall|v: int| 0 <= v < vars1.len() implies (#[trigger] vars1[v]).q
                <= Q_ONE by {
                assert(vars1[v].same_state(&vars0[v]));
            }
            assert(self.inv());
            if old(self).sound() {
                lemma_fixed_entailed_kept(self.origin@, vars0, vars1);
                assert(all_entailed(self.origin@, vars1.len(), clauses1)) by {
                    assert forall|c: int| 0 <= c < clauses1.len() implies entails(
                        self.origin@,
                        vars1.len(),
                        (#[trigger] clauses1[c]).lits(),
                    ) by {
                        assert(clauses1[c].lits() == clauses0[c].lits());
                        assert(entails(self.origin@, vars0.len(), clauses0[c].lits()));
                    }
                }
            }
            // The list that is gone through has lost the clause or is as it was.
            let c0 = clauses0[cid as int];
            assert(crate::cnf::watching::place(c0.lit0()) == (id as int, val)
                || crate::cnf::watching::place(c0.lit1()) == (id as int, val));
            assert(crate::cnf::watching::kept_or_cut(list0, list1, cid));
            if list1 != list0 {
                crate::cnf::watching::lemma_without_last(list0, cid);
            }
            assert(self.extends(old(self))) by {
                assert forall|v: int| 0 <= v < vars1.len() implies (#[trigger] vars1[v]).q
                    == old(self).variables@[v].q && (old(self).variables@[v].assigned()
                    ==> vars1[v].same_state(&old(self).variables@[v])) && (
                !vars1[v].assigned() ==> vars1[v].value == old(self).variables@[v].value) by {
                    assert(vars1[v].same_state(&vars0[v]));
                }
                assert forall|i: int|
                    old(self).applications@.len() <= i < self.applications@.len() implies self.variables@[(
                #[trigger] self.applications@[i]).0 as int].depth == self.depth by {
                    assert(vars1[self.applications@[i].0 as int].same_state(
                        &vars0[self.applications@[i].0 as int],
                    ));
                }
            }
            assert(vars1[id as int].same_state(&vars0[id as int]));
        }
        proof {
            if tracking && !(outcome is Unsat) {
                assert forall|c: int| 0 <= c < clauses0.len() implies (#[trigger] clauses0[c]).wf(
                    vars0.len(),
                ) by {
                }
                lemma_flow_applied(
                    vars0,
                    vars1,
                    clauses0,
                    clauses1,
                    self.applications@,
                    self.place@,
                    ai,
                    done,
                    cid,
                );
            }
        }
        let conflict = match outcome {
            Apply::Continue => {
                proof {
                    if tracking {
                        lemma_fed_flowing(
                            vars1,
                            clauses1,
                            self.applications@,
                            self.place@,
                            ai,
                            done.insert(cid),
                            cid,
                        );
                    }
                }
                false
            },
            Apply::Unsat => {
                proof {
                    if tracking {
                        assert(vars1 == vars0);
                        assert(clauses1 =~= clauses0);
                        lemma_flow_stirred(
                            vars1,
                            clauses1,
                            self.applications@,
                            self.place@,
                            self.levels@,
                            self.depth.0,
                            ai,
                            done,
                        );
                    }
                    let c1 = clauses1[cid as int];
                    let k = if crate::cnf::watching::place(c1.lit0()) == (id as int, val) {
                        c1.w0()
                    } else {
                        c1.w1()
                    };
                    assert(c1.lits()[k].var() == id);
                    assert(lit_depth(vars1, c1.lits()[k]) == self.depth.0);
                }
                true
            },
            Apply::Unit(lit) => {
                let x = lit.id().to_usize();
                proof {
                    let c1 = clauses1[cid as int];
                    assert(c1.lits().contains(lit));
                    let k = choose|k: int| 0 <= k < c1.lits().len() && c1.lits()[k] == lit;
                    assert(c1.lits()[k].var() < vars1.len());
                    assert(!vars1[x as int].assigned());
                    assert(x != id);
                }
                self.variables[x].set(!lit.negated(), self.depth, cid);
                let ghost vars2 = self.variables@;
                proof {
                    let c1 = clauses1[cid as int];
                    assert(vars2 =~= vars1.update(x as int, vars2[x as int]));
                    assert forall|k: int| 0 <= k < c1.lits().len() implies lit_depth(
                        vars2,
                        #[trigger] c1.lits()[k],
                    ) <= self.depth.0 by {
                        let u = c1.lits()[k].var();
                        if u != x {
                            assert(c1.lits()[k] != lit);
                            assert(lit_false(vars1, c1.lits()[k]));
                            assert(vars2[u] == vars1[u]);
                            assert(vars1[u].assigned());
                        }
                    }
                }
                self.clauses[cid].update_glue(&self.variables, self.depth);
                self.applications.push(lit.id());
                self.plays.push(lit.id());
                proof {
                    let c1 = clauses1[cid as int];
                    let clauses2 = self.clauses@;
                    let trail1 = before.applications@;
                    let place1 = before.place@;
                    assert(clauses2 =~= clauses1.update(cid as int, clauses2[cid as int]));
                    assert(lit.spec_id() == VariableId(x));
                    lemma_trail_extended(
                        vars1,
                        vars2,
                        trail1,
                        place1,
                        self.levels@,
                        self.depth.0,
                        x as int,
                    );
                    self.place = Ghost(place1.update(x as int, trail1.len() as int));
                    lemma_count_update(vars1, x as int, vars2[x as int]);
                    assert forall|u: int| 0 <= u < vars1.len() implies (#[trigger] vars2[u]).same_watchlists(
                        &vars1[u],
                    ) by {
                    }
                    lemma_watch_ok_same_lists(vars1, vars2, clauses1);
                    assert forall|c: int| 0 <= c < clauses1.len() implies (#[trigger] clauses2[c]).lits()
                        == clauses1[c].lits() && clauses2[c].w0() == clauses1[c].w0()
                        && clauses2[c].w1() == clauses1[c].w1() by {
                    }
                    lemma_watch_same_clauses(vars2, clauses1, clauses2);
                    // The clause is the reason of the literal that it has set.
                    let trail2 = self.applications@;
                    let place2 = self.place@;
                    assert(trail2 =~= trail1.push(VariableId(x)));
                    let k = choose|k: int| 0 <= k < c1.lits().len() && c1.lits()[k] == lit;
                    assert(lit_true(vars2, c1.lits()[k]));
                    assert forall|j: int|
                        0 <= j < c1.lits().len() && (#[trigger] c1.lits()[j]).var()
                            != x implies lit_false(vars2, c1.lits()[j]) && (on_trail(
                        trail2,
                        place2,
                        c1.lits()[j].var(),
                    ) ==> place2[c1.lits()[j].var()] < place2[x as int]) by {
                        let u = c1.lits()[j].var();
                        assert(c1.lits()[j] != lit);
                        assert(lit_false(vars1, c1.lits()[j]));
                        assert(vars2[u] == vars1[u]);
                        if on_trail(trail2, place2, u) {
                            if place2[u] == trail1.len() {
                                assert(trail2[place2[u]].0 == x);
                            }
                        }
                    }
                    assert(implied_by(vars2, trail2, place2, c1.lits(), x as int));
                    assert(reason_ok(vars2, clauses1, trail2, place2, x as int));
                    lemma_reasons_extended(vars1, vars2, clauses1, trail1, place1, x as int);
                    lemma_reasons_same_lits(vars2, clauses1, clauses2, trail2, place2);
                    assert forall|p: int| 0 <= p < self.plays@.len() implies (#[trigger] self.plays@[p]).0
                        < self.variables@.len() by {
                        if p < before.plays@.len() {
                            assert(self.plays@[p] == before.plays@[p]);
                        }
                    }
                    assert forall|v: int| 0 <= v < vars2.len() implies (#[trigger] vars2[v]).q
                        <= Q_ONE by {
                        if v != x {
                            assert(vars2[v] == vars1[v]);
                        }
                    }
                    assert(self.inv());
                    if old(self).sound() {
                        assert(all_entailed(self.origin@, vars2.len(), clauses2)) by {
                            assert forall|c: int| 0 <= c < clauses2.len() implies entails(
                                self.origin@,
                                vars2.len(),
                                (#[trigger] clauses2[c]).lits(),
                            ) by {
                                assert(clauses2[c].lits() == clauses1[c].lits());
                                assert(entails(self.origin@, vars1.len(), clauses1[c].lits()));
                            }
                        }
                        if self.depth.0 == 0 {
                            assert forall|m: Seq<bool>|
                                m.len() == vars1.len() && #[trigger] formula_holds(
                                    m,
                                    self.origin@,
                                ) implies m[x as int] == vars2[x as int].value by {
                                assert forall|j: int|
                                    0 <= j < c1.lits().len() && c1.lits()[j] != lit implies (
                                #[trigger] c1.lits()[j]).var() < vars1.len() && lit_false(
                                    vars1,
                                    c1.lits()[j],
                                ) && vars1[c1.lits()[j].var()].depth.0 == 0 by {
                                    assert(lit_false(vars1, c1.lits()[j]));
                                }
                                lemma_unit_entailed(self.origin@, vars1, c1.lits(), lit, m);
                            }
                            lemma_fixed_entailed_more(self.origin@, vars1, vars2, x as int);
                        } else {
                            assert forall|v: int|
                                0 <= v < vars2.len() && (#[trigger] vars2[v]).assigned()
                                    && vars2[v].depth.0 == 0 implies vars1[v].assigned()
                                && vars1[v].depth.0 == 0 && vars1[v].value == vars2[v].value by {
                                if v != x {
                                    assert(vars2[v] == vars1[v]);
                                }
                            }
                            lemma_fixed_entailed_kept(self.origin@, vars1, vars2);
                        }
                    }
                    assert(self.same_clauses(old(self))) by {
                        assert forall|c: int| 0 <= c < clauses2.len() implies (#[trigger] clauses2[c]).lits()
                            == old(self).clauses@[c].lits() && clauses2[c].glue.0 <= old(self).clauses@[c].glue.0 by {
                            if c != cid {
                                assert(clauses2[c] == clauses1[c]);
                            }
                            assert(clauses1[c].lits() == clauses0[c].lits());
                            assert(clauses1[c].glue == clauses0[c].glue);
                        }
                    }
                    assert(self.extends(old(self))) by {
                        let old_trail = old(self).applications@;
                        assert(trail2.take(old_trail.len() as int) =~= trail1.take(
                            old_trail.len() as int,
                        ));
                        assert forall|v: int| 0 <= v < vars2.len() implies (#[trigger] vars2[v]).q
                            == old(self).variables@[v].q && (old(self).variables@[v].assigned() ==> vars2[v].same_state(
                            &old(self).variables@[v],
                        )) && (!vars2[v].assigned() ==> vars2[v].value == old(self).variables@[v].value) by {
                            if v != x {
                                assert(vars2[v] == vars1[v]);
                            }
                        }
                        assert forall|i: int|
                            old_trail.len() <= i < trail2.len() implies vars2[(
                        #[trigger] trail2[i]).0 as int].depth == self.depth by {
                            if i < trail1.len() {
                                assert(trail2[i] == trail1[i]);
                                assert(before.applications@[i].0 != x);
                                assert(vars2[trail1[i].0 as int] == vars1[trail1[i].0 as int]);
                            }
                        }
                    }
                    assert(vars2[id as int] == vars1[id as int]);
                    assert(list1 == vars2[id as int].watchlist(val));
                    if tracking {
                        assert forall|c: int| 0 <= c < clauses1.len() implies (#[trigger] clauses1[c]).wf(
                            vars1.len(),
                        ) by {
                        }
                        assert(before.applications@[ai].0 < vars1.len());
                        assert(vars1[before.applications@[ai].0 as int].same_state(
                            &vars0[before.applications@[ai].0 as int],
                        ));
                        lemma_flow_unit(
                            vars1,
                            vars2,
                            clauses1,
                            clauses2,
                            trail1,
                            place1,
                            self.levels@,
                            self.depth.0,
                            ai,
                            done.insert(cid),
                            cid,
                            lit,
                        );
                    }
                }
                false
            },
        };
        conflict
    }
}

/// Extending a trail twice is extending it.
pub(crate) proof fn lemma_extends_chain<T>(a: Problem<T>, b: Problem<T>, c: Problem<T>)
    requires
        b.inv(),
        b.extends(&a),
        c.extends(&b),
        b.depth == c.depth,
    ensures
        c.extends(&a),
{
    let ta = a.applications@;
    let tb = b.applications@;
    let tc = c.applications@;
    assert(tc.take(ta.len() as int) =~= ta) by {
        assert forall|i: int| 0 <= i < ta.len() implies tc[i] == ta[i] by {
            assert(tc.take(tb.len() as int)[i] == tb[i]);
            assert(tb.take(ta.len() as int)[i] == ta[i]);
        }
    }
    assert forall|v: int| 0 <= v < c.variables@.len() implies (#[trigger] c.variables@[v]).q
        == a.variables@[v].q && (a.variables@[v].assigned() ==> c.variables@[v].same_state(
        &a.variables@[v],
    )) && (!c.variables@[v].assigned() ==> c.variables@[v].value == a.variables@[v].value) by {
        assert(b.variables@[v].q == a.variables@[v].q);
        assert(c.variables@[v].q == b.variables@[v].q);
        if a.variables@[v].assigned() {
            assert(b.variables@[v].same_state(&a.variables@[v]));
            assert(b.variables@[v].assigned());
        }
        if !c.variables@[v].assigned() {
            if b.variables@[v].assigned() {
                assert(c.variables@[v].same_state(&b.variables@[v]));
            }
        }
    }
    assert forall|i: int| ta.len() <= i < tc.len() implies c.variables@[(#[trigger] tc[i]).0 as int].depth
        == c.depth && c.variables@[tc[i].0 as int].ante != usize::MAX by {
        if i < tb.len() {
            assert(tc.take(tb.len() as int)[i] == tb[i]);
            assert(b.variables@[tb[i].0 as int].depth == b.depth);
            assert(b.variables@[tb[i].0 as int].ante != usize::MAX);
            let v = tb[i].0 as int;
            assert(v < b.variables@.len());
            assert(b.variables@[v].assigned());
            assert(c.variables@[v].same_state(&b.variables@[v]));
        }
    }
}

/// The reasons stay in order when clauses change in nothing but glue and
/// watched positions.
pub(crate) proof fn lemma_reasons_same_lits(
    vars: Seq<Variable>,
    a: Seq<Clause>,
    b: Seq<Clause>,
    trail: Seq<VariableId>,
    place: Seq<int>,
)
    requires
        reasons_ok(vars, a, trail, place),
        a.len() == b.len(),
        forall|c: int| 0 <= c < a.len() ==> (#[trigger] b[c]).lits() == a[c].lits(),
    ensures
        reasons_ok(vars, b, trail, place),
{
    assert forall|i: int| 0 <= i < trail.len() implies #[trigger] reason_ok(
        vars,
        b,
        trail,
        place,
        trail[i].0 as int,
    ) by {
        let v = trail[i].0 as int;
        assert(reason_ok(vars, a, trail, place, trail[i].0 as int));
        if vars[v].ante != usize::MAX {
            assert(b[vars[v].ante as int].lits() == a[vars[v].ante as int].lits());
        }
    }
}

/// The number of entries that are not set.
pub open spec fn count_false(marks: Seq<bool>) -> nat
    decreases marks.len(),
{
    if marks.len() == 0 {
        0
    } else {
        count_false(marks.drop_last()) + if marks.last() {
            0nat
        } else {
            1nat
        }
    }
}

/// Setting an entry that was not set leaves one fewer.
pub proof fn lemma_count_false_set(marks: Seq<bool>, i: int)
    requires
        0 <= i < marks.len(),
        !marks[i],
    ensures
        count_false(marks.update(i, true)) == count_false(marks) - 1,
    decreases marks.len(),
{
    let after = marks.update(i, true);
    if i == marks.len() - 1 {
        assert(after.drop_last() =~= marks.drop_last());
    } else {
        assert(after.drop_last() =~= marks.drop_last().update(i, true));
        lemma_count_false_set(marks.drop_last(), i);
    }
}

impl<T> Problem<T> {
    /// What holds of the literals of a clause that is being learned: they are
    /// over different variables, all assigned above depth 0; the one at
    /// `implicated`, if there is one, lies at the current depth, all others
    /// lie below.
    pub open(crate) spec fn learning(&self, lits: Seq<Literal>, implicated: usize) -> bool {
        &&& implicated == usize::MAX || implicated < lits.len()
        &&& forall|k: int|
            0 <= k < lits.len() ==> {
                &&& (#[trigger] lits[k]).var() < self.variables@.len()
                &&& lit_false(self.variables@, lits[k])
                &&& 1 <= self.variables@[lits[k].var()].depth.0 <= self.depth.0
                &&& (self.variables@[lits[k].var()].depth.0 == self.depth.0 <==> k == implicated)
            }
        &&& forall|i: int, j: int| 0 <= i < j < lits.len() ==> lits[i].var() != lits[j].var()
    }

    /// Every literal of the clause `cid` is false, but those over marked
    /// variables.
    pub open(crate) spec fn false_but_marked(&self, cid: usize, marks: Seq<bool>) -> bool {
        &&& cid < self.clauses@.len()
        &&& forall|k: int|
            0 <= k < self.clauses@[cid as int].lits().len() ==> marks[(
            #[trigger] self.clauses@[cid as int].lits()[k]).var()] || lit_false(
                self.variables@,
                self.clauses@[cid as int].lits()[k],
            )
    }

    /// Every literal of the clause `cid` is assigned.
    pub open(crate) spec fn all_assigned(&self, cid: usize) -> bool {
        &&& cid < self.clauses@.len()
        &&& forall|k: int|
            0 <= k < self.clauses@[cid as int].lits().len() ==> lit_assigned(
                self.variables@,
                #[trigger] self.clauses@[cid as int].lits()[k],
            )
    }

    /// The clause that has forced an assignment on the trail has all its
    /// literals assigned.
    pub(crate) proof fn lemma_reason_assigned(&self, v: int)
        requires
            self.inv(),
            0 <= v < self.variables@.len(),
            self.variables@[v].assigned(),
            self.variables@[v].depth.0 >= 1,
            self.variables@[v].ante != usize::MAX,
        ensures
            self.all_assigned(self.variables@[v].ante),
            on_trail(self.applications@, self.place@, v),
            implied_by(
                self.variables@,
                self.applications@,
                self.place@,
                self.clauses@[self.variables@[v].ante as int].lits(),
                v,
            ),
            forall|k: int|
                0 <= k < self.clauses@[self.variables@[v].ante as int].lits().len() ==> (
                #[trigger] self.clauses@[self.variables@[v].ante as int].lits()[k]).var() == v
                    || lit_false(
                    self.variables@,
                    self.clauses@[self.variables@[v].ante as int].lits()[k],
                ),
    {
        assert(on_trail(self.applications@, self.place@, v));
        let i = self.place@[v];
        assert(self.applications@[i].0 == v);
        assert(reason_ok(self.variables@, self.clauses@, self.applications@, self.place@, self.applications@[i].0 as int));
        let lits = self.clauses@[self.variables@[v].ante as int].lits();
        assert(implied_by(self.variables@, self.applications@, self.place@, lits, v));
        assert forall|k: int| 0 <= k < lits.len() implies lit_assigned(
            self.variables@,
            #[trigger] lits[k],
        ) by {
            if lits[k].var() != v {
                assert(lit_false(self.variables@, lits[k]));
            }
        }
    }

    /// A clause whose literals are false but for marked variables stays so
    /// when more variables are marked.
    pub(crate) proof fn lemma_marks_grown(&self, cid: usize, before: Seq<bool>, after: Seq<bool>)
        requires
            self.false_but_marked(cid, before),
            before.len() == after.len(),
            before.len() == self.variables@.len(),
            self.inv(),
            forall|v: int| 0 <= v < before.len() && before[v] ==> #[trigger] after[v],
        ensures
            self.false_but_marked(cid, after),
    {
        let lits = self.clauses@[cid as int].lits();
        assert(self.clauses@[cid as int].wf(self.variables@.len()));
        assert forall|k: int| 0 <= k < lits.len() implies after[(#[trigger] lits[k]).var()]
            || lit_false(self.variables@, lits[k]) by {
            if before[lits[k].var()] {
                assert(after[lits[k].var()]);
            }
        }
    }

    /// Of two different variables at one depth above 0, at most one is a
    /// decision.
    pub(crate) proof fn lemma_one_decision(&self, a: int, b: int)
        requires
            self.inv(),
            0 <= a < self.variables@.len(),
            0 <= b < self.variables@.len(),
            a != b,
            self.variables@[a].assigned(),
            self.variables@[b].assigned(),
            self.variables@[a].depth.0 >= 1,
            self.variables@[a].depth == self.variables@[b].depth,
            self.variables@[b].ante == usize::MAX,
        ensures
            self.variables@[a].ante != usize::MAX,
    {
        let trail = self.applications@;
        let place = self.place@;
        assert(on_trail(trail, place, a));
        assert(on_trail(trail, place, b));
        assert(entry_ok(self.variables@, trail, self.levels@, place[a]));
        assert(entry_ok(self.variables@, trail, self.levels@, place[b]));
    }

    /// The variable `v` was assigned above depth 0 by a clause that forced it.
    pub open(crate) spec fn forced(&self, v: int) -> bool {
        &&& 0 <= v < self.variables@.len()
        &&& self.variables@[v].assigned()
        &&& self.variables@[v].depth.0 >= 1
        &&& self.variables@[v].ante != usize::MAX
    }

    /// The variable `v` was forced, and every other variable of the clause
    /// that forced it is marked or fixed at depth 0.
    pub open(crate) spec fn expanded(&self, v: int, marks: Seq<bool>) -> bool {
        &&& self.forced(v)
        &&& forall|k: int|
            0 <= k < self.clauses@[self.variables@[v].ante as int].lits().len() ==> {
                let u = (#[trigger] self.clauses@[self.variables@[v].ante as int].lits()[k]).var();
                u == v || marks[u] || self.variables@[u].depth.0 == 0
            }
    }

    /// The variable `v` is subsumed under the marks: it was forced, and every
    /// other variable of the clause that forced it is marked, or fixed at
    /// depth 0, or subsumed itself.
    pub open(crate) spec fn subsumed(&self, v: int, marks: Seq<bool>) -> bool
        decreases self.stood(v),
    {
        &&& self.forced(v)
        &&& forall|k: int|
            0 <= k < self.clauses@[self.variables@[v].ante as int].lits().len() ==> {
                let u = (#[trigger] self.clauses@[self.variables@[v].ante as int].lits()[k]).var();
                u == v || marks[u] || self.variables@[u].depth.0 == 0 || (0 <= self.stood(u) < self.stood(v)
                    && self.subsumed(u, marks))
            }
    }

    /// Where the variable `v` stands on the trail.
    pub open(crate) spec fn stood(&self, v: int) -> int {
        self.place@[v]
    }

    /// The literal of the variable `v` stays in a clause that is made
    /// smaller under the marks: the variable was decided, or it was assigned
    /// at the current depth, or it is not subsumed.
    pub open(crate) spec fn stays(&self, v: int, marks: Seq<bool>) -> bool {
        ||| self.variables@[v].ante == usize::MAX
        ||| self.variables@[v].depth == self.depth
        ||| !self.subsumed(v, marks)
    }

    /// A variable that was forced by marked variables is subsumed.
    pub(crate) proof fn lemma_expanded_subsumed(&self, v: int, marks: Seq<bool>)
        requires
            self.expanded(v, marks),
        ensures
            self.subsumed(v, marks),
    {
    }

    /// Marking variables that are subsumed changes nothing in what is
    /// subsumed: where `after` holds the marks of `before` and, besides them,
    /// only variables that are subsumed under `before`, the same variables
    /// are subsumed under both.
    pub(crate) proof fn lemma_subsumed_stable(&self, v: int, before: Seq<bool>, after: Seq<bool>)
        requires
            self.inv(),
            before.len() == self.variables@.len(),
            after.len() == self.variables@.len(),
            forall|u: int| 0 <= u < before.len() && before[u] ==> #[trigger] after[u],
            forall|u: int| 0 <= u < after.len() && #[trigger] after[u] ==> before[u] || self.subsumed(u, before),
        ensures
            self.subsumed(v, after) == self.subsumed(v, before),
        decreases self.place@[v],
    {
        if self.forced(v) {
            self.lemma_reason_assigned(v);
            let cid = self.variables@[v].ante as int;
            let lits = self.clauses@[cid].lits();
            assert(self.clauses@[cid].wf(self.variables@.len()));
            let trail = self.applications@;
            let place = self.place@;
            assert(on_trail(trail, place, v));
            if self.subsumed(v, before) {
                assert forall|k: int| 0 <= k < lits.len() implies {
                    let u = (#[trigger] lits[k]).var();
                    u == v || after[u] || self.variables@[u].depth.0 == 0 || (0 <= self.stood(u) < self.stood(v)
                        && self.subsumed(u, after))
                } by {
                    let u = lits[k].var();
                    if u != v && !before[u] && self.variables@[u].depth.0 != 0 {
                        assert(0 <= place[u] < place[v] && self.subsumed(u, before));
                        self.lemma_subsumed_stable(u, before, after);
                    } else if before[u] {
                        assert(after[u]);
                    }
                }
            }
            if self.subsumed(v, after) {
                assert forall|k: int| 0 <= k < lits.len() implies {
                    let u = (#[trigger] lits[k]).var();
                    u == v || before[u] || self.variables@[u].depth.0 == 0 || (0 <= self.stood(u) < self.stood(v)
                        && self.subsumed(u, before))
                } by {
                    let u = lits[k].var();
                    assert(u < self.variables@.len());
                    if u != v && !before[u] && self.variables@[u].depth.0 != 0 {
                        assert(lit_assigned(self.variables@, lits[k]));
                        assert(on_trail(trail, place, u));
                        assert(0 <= place[u] < place[v]);
                        if after[u] {
                            assert(self.subsumed(u, before));
                        } else {
                            assert(self.subsumed(u, after));
                            self.lemma_subsumed_stable(u, before, after);
                        }
                    }
                }
            }
        }
    }

    /// Why the marked variable `v` is no obstacle to the clause that is being
    /// learned: the clause holds a literal over it, or it is fixed at depth 0,
    /// or it was forced by marked variables, or the clause that forced it is
    /// still to be gone through.
    pub open(crate) spec fn justified(
        &self,
        v: int,
        marks: Seq<bool>,
        lits: Seq<Literal>,
        pending: Seq<int>,
        current: int,
    ) -> bool {
        &&& self.variables@[v].assigned()
        &&& {
            ||| exists|k: int| 0 <= k < lits.len() && (#[trigger] lits[k]).var() == v
            ||| self.variables@[v].depth.0 == 0
            ||| self.expanded(v, marks)
            ||| pending.contains(v)
            ||| v == current
        }
    }

    /// Every marked variable is justified.
    pub open(crate) spec fn all_justified(
        &self,
        marks: Seq<bool>,
        lits: Seq<Literal>,
        pending: Seq<int>,
        current: int,
    ) -> bool {
        &&& marks.len() == self.variables@.len()
        &&& forall|v: int|
            0 <= v < marks.len() && #[trigger] marks[v] ==> self.justified(
                v,
                marks,
                lits,
                pending,
                current,
            )
    }

    /// Some clause is falsified and has all its variables marked.
    pub open(crate) spec fn closes(&self, marks: Seq<bool>) -> bool {
        exists|cid: int|
            0 <= cid < self.clauses@.len() && (#[trigger] self.clauses@[cid]).falsified(
                self.variables@,
            ) && forall|k: int|
                0 <= k < self.clauses@[cid].lits().len() ==> marks[(
                #[trigger] self.clauses@[cid].lits()[k]).var()]
    }

    /// A variable that was forced by marked variables stays so when more
    /// variables are marked.
    pub(crate) proof fn lemma_expanded_grown(&self, v: int, before: Seq<bool>, after: Seq<bool>)
        requires
            self.expanded(v, before),
            self.inv(),
            before.len() == after.len(),
            before.len() == self.variables@.len(),
            forall|u: int| 0 <= u < before.len() && before[u] ==> #[trigger] after[u],
        ensures
            self.expanded(v, after),
    {
        self.lemma_reason_assigned(v);
        let lits = self.clauses@[self.variables@[v].ante as int].lits();
        assert(self.clauses@[self.variables@[v].ante as int].wf(self.variables@.len()));
        assert forall|k: int| 0 <= k < lits.len() implies {
            let u = (#[trigger] lits[k]).var();
            u == v || after[u] || self.variables@[u].depth.0 == 0
        } by {
            let u = lits[k].var();
            if before[u] {
                assert(after[u]);
            }
        }
    }

    /// The marked variables stay justified when one more variable is marked
    /// that is justified itself, if no literal is lost from the clause but
    /// such as are noted as still to be followed up.
    pub(crate) proof fn lemma_justified_step(
        &self,
        marks0: Seq<bool>,
        marks1: Seq<bool>,
        lits0: Seq<Literal>,
        lits1: Seq<Literal>,
        pending0: Seq<int>,
        pending1: Seq<int>,
        current: int,
    )
        requires
            self.inv(),
            self.all_justified(marks0, lits0, pending0, current),
            marks1.len() == marks0.len(),
            forall|u: int| 0 <= u < marks0.len() && marks0[u] ==> #[trigger] marks1[u],
            forall|u: int|
                0 <= u < marks1.len() && #[trigger] marks1[u] && !marks0[u] ==> self.justified(
                    u,
                    marks1,
                    lits1,
                    pending1,
                    current,
                ),
            forall|k: int|
                0 <= k < lits0.len() ==> pending1.contains((#[trigger] lits0[k]).var()) || exists|j: int|
                    0 <= j < lits1.len() && (#[trigger] lits1[j]).var() == lits0[k].var(),
            forall|q: int| 0 <= q < pending0.len() ==> pending1.contains(#[trigger] pending0[q]),
        ensures
            self.all_justified(marks1, lits1, pending1, current),
    {
        assert forall|v: int| 0 <= v < marks1.len() && #[trigger] marks1[v] implies self.justified(
            v,
            marks1,
            lits1,
            pending1,
            current,
        ) by {
            if marks0[v] {
                assert(self.justified(v, marks0, lits0, pending0, current));
                if exists|k: int| 0 <= k < lits0.len() && (#[trigger] lits0[k]).var() == v {
                    let k = choose|k: int| 0 <= k < lits0.len() && (#[trigger] lits0[k]).var() == v;
                    assert(pending1.contains(lits0[k].var()) || exists|j: int|
                        0 <= j < lits1.len() && (#[trigger] lits1[j]).var() == lits0[k].var());
                } else if self.variables@[v].depth.0 == 0 {
                } else if self.expanded(v, marks0) {
                    self.lemma_expanded_grown(v, marks0, marks1);
                } else if pending0.contains(v) {
                    let q = choose|q: int| 0 <= q < pending0.len() && pending0[q] == v;
                    assert(pending1.contains(pending0[q]));
                }
            }
        }
    }

    /// Values that make the clauses of the problem's origin hold, and every
    /// literal of the clause being learned fail, agree with the search on
    /// every marked variable.
    pub(crate) proof fn lemma_marked_agrees(&self, m: Seq<bool>, marks: Seq<bool>, lits: Seq<Literal>, v: int)
        requires
            self.inv(),
            self.sound(),
            m.len() == self.variables@.len(),
            formula_holds(m, self.origin@),
            !clause_holds(m, lits),
            forall|k: int|
                0 <= k < lits.len() ==> (#[trigger] lits[k]).var() < self.variables@.len() && lit_false(
                    self.variables@,
                    lits[k],
                ),
            self.all_justified(marks, lits, Seq::<int>::empty(), -1),
            0 <= v < marks.len(),
            marks[v],
        ensures
            m[v] == self.variables@[v].value,
        decreases
                (if self.variables@[v].depth.0 == 0 {
                    0
                } else {
                    self.place@[v] + 1
                }),
    {
        let vars = self.variables@;
        assert(self.justified(v, marks, lits, Seq::<int>::empty(), -1));
        if exists|k: int| 0 <= k < lits.len() && (#[trigger] lits[k]).var() == v {
            let k = choose|k: int| 0 <= k < lits.len() && (#[trigger] lits[k]).var() == v;
            assert(lit_false(vars, lits[k]));
            assert(!lit_holds(m, lits[k]));
        } else if vars[v].depth.0 == 0 {
            assert(agrees_fixed(m, vars));
        } else {
            assert(self.expanded(v, marks));
            self.lemma_reason_assigned(v);
            let ante = vars[v].ante as int;
            let reason = self.clauses@[ante].lits();
            assert(self.clauses@[ante].wf(vars.len()));
            assert(entails(self.origin@, vars.len(), self.clauses@[ante].lits()));
            assert(clause_holds(m, reason));
            let j = choose|j: int| 0 <= j < reason.len() && lit_holds(m, #[trigger] reason[j]);
            let u = reason[j].var();
            if u != v {
                assert(lit_false(vars, reason[j]));
                assert(implied_by(vars, self.applications@, self.place@, reason, v));
                if vars[u].depth.0 == 0 {
                    assert(agrees_fixed(m, vars));
                } else {
                    assert(marks[u]);
                    assert(on_trail(self.applications@, self.place@, u));
                    assert(self.place@[u] < self.place@[v]);
                    self.lemma_marked_agrees(m, marks, lits, u);
                }
                assert(false);
            }
            let t = choose|t: int|
                0 <= t < reason.len() && (#[trigger] reason[t]).var() == v && lit_true(vars, reason[t]);
            if t != j {
                if t < j {
                    assert(reason[t].var() != reason[j].var());
                } else {
                    assert(reason[j].var() != reason[t].var());
                }
            }
        }
    }

    /// The clause that has been learned follows from the clauses that the
    /// problem was made from.
    pub(crate) proof fn lemma_learned_entailed(&self, marks: Seq<bool>, lits: Seq<Literal>)
        requires
            self.inv(),
            self.sound(),
            forall|k: int|
                0 <= k < lits.len() ==> (#[trigger] lits[k]).var() < self.variables@.len() && lit_false(
                    self.variables@,
                    lits[k],
                ),
            self.all_justified(marks, lits, Seq::<int>::empty(), -1),
            self.closes(marks),
        ensures
            entails(self.origin@, self.variables@.len(), lits),
    {
        let vars = self.variables@;
        assert forall|m: Seq<bool>|
            m.len() == vars.len() && #[trigger] formula_holds(m, self.origin@) implies clause_holds(
            m,
            lits,
        ) by {
            if !clause_holds(m, lits) {
                let cid = choose|cid: int|
                    0 <= cid < self.clauses@.len() && (#[trigger] self.clauses@[cid]).falsified(vars)
                        && forall|k: int|
                        0 <= k < self.clauses@[cid].lits().len() ==> marks[(
                        #[trigger] self.clauses@[cid].lits()[k]).var()];
                let conflict = self.clauses@[cid].lits();
                assert(self.clauses@[cid].wf(vars.len()));
                assert(entails(self.origin@, vars.len(), self.clauses@[cid].lits()));
                assert(clause_holds(m, conflict));
                let j = choose|j: int| 0 <= j < conflict.len() && lit_holds(m, #[trigger] conflict[j]);
                assert(marks[conflict[j].var()]);
                self.lemma_marked_agrees(m, marks, lits, conflict[j].var());
                assert(lit_false(vars, conflict[j]));
            }
        }
    }

    /// Finds out what a conflict teaches.
    ///
    /// Starts from the literals of the falsified clause `cid`. A literal
    /// that was assigned below the current depth goes into the clause to be
    /// learned, unless it lies at depth 0. Of the literals at the current
    /// depth one is kept: the first that is met, until the decision of this
    /// depth is met, which then takes its place. Every other literal at the
    /// current depth is followed up: the clause that has forced it is gone
    /// through in the same way. Then the clause is made smaller: see
    /// `minimize`. The variables of the falsified clause are noted as having
    /// taken part in this conflict.
    pub(crate) fn learn(&mut self, cid: usize) -> (lits: Vec<Literal>)
        requires
            old(self).inv(),
            old(self).depth.0 >= 1,
            old(self).conflicting(cid),
        ensures
            final(self).inv(),
            final(self).learned(lits@),
            old(self).sound() ==> final(self).sound() && entails(
                final(self).origin@,
                final(self).variables@.len(),
                lits@,
            ),
            final(self).variables == old(self).variables,
            final(self).clauses == old(self).clauses,
            final(self).applications == old(self).applications,
            final(self).place == old(self).place,
            final(self).levels == old(self).levels,
            final(self).depth == old(self).depth,
            final(self).variable_names == old(self).variable_names,
            final(self).irreducible == old(self).irreducible,
            final(self).num_conflicts == old(self).num_conflicts,
            final(self).gc_count == old(self).gc_count,
            final(self).alpha == old(self).alpha,
            final(self).plays == old(self).plays,
            final(self).conflict_lens == old(self).conflict_lens,
            final(self).active_variables == old(self).active_variables,
            final(self).solution == old(self).solution,
            final(self).origin == old(self).origin,
            final(self).base == old(self).base,
            final(self).last_conflict@.len() == old(self).last_conflict@.len(),
            forall|v: int|
                0 <= v < old(self).last_conflict@.len() ==> #[trigger] final(self).last_conflict@[v] == if exists|
                    k: int,
                |
                    0 <= k < old(self).clauses@[cid as int].lits().len() && (#[trigger] old(self).clauses@[cid as int].lits()[k]).var() == v {
                    old(self).num_conflicts
                } else {
                    old(self).last_conflict@[v]
                },
    {
        let ghost conflict_lits = self.clauses@[cid as int].lits();
        let ghost last0 = self.last_conflict@;
        let mut k: usize = 0;
        while k < self.clauses[cid].len()
            invariant
                k <= conflict_lits.len(),
                conflict_lits == self.clauses@[cid as int].lits(),
                cid < self.clauses@.len(),
                old(self).inv(),
                last0 == old(self).last_conflict@,
                self.last_conflict@.len() == last0.len(),
                forall|v: int|
                    0 <= v < last0.len() ==> #[trigger] self.last_conflict@[v] == if exists|j: int|
                        0 <= j < k && (#[trigger] conflict_lits[j]).var() == v {
                        self.num_conflicts
                    } else {
                        last0[v]
                    },
                self.variables == old(self).variables,
                self.clauses == old(self).clauses,
                self.applications == old(self).applications,
                self.place == old(self).place,
                self.levels == old(self).levels,
                self.depth == old(self).depth,
                self.variable_names == old(self).variable_names,
                self.irreducible == old(self).irreducible,
                self.num_conflicts == old(self).num_conflicts,
                self.gc_count == old(self).gc_count,
                self.alpha == old(self).alpha,
                self.plays == old(self).plays,
                self.conflict_lens == old(self).conflict_lens,
                self.active_variables == old(self).active_variables,
                self.solution == old(self).solution,
                self.origin == old(self).origin,
                self.base == old(self).base,
            decreases conflict_lits.len() - k,
        {
            let lit = self.clauses[cid].literals[k];
            proof {
                assert(self.clauses@[cid as int].wf(self.variables@.len()));
                assert(conflict_lits[k as int].var() < self.variables@.len());
            }
            let ghost last1 = self.last_conflict@;
            self.last_conflict[lit.id().to_usize()] = self.num_conflicts;
            proof {
                assert forall|v: int| 0 <= v < last0.len() implies #[trigger] self.last_conflict@[v]
                    == if exists|j: int| 0 <= j < k + 1 && (#[trigger] conflict_lits[j]).var() == v {
                    self.num_conflicts
                } else {
                    last0[v]
                } by {
                    if v == lit.var() {
                        assert(conflict_lits[k as int].var() == v);
                    } else {
                        assert(self.last_conflict@[v] == last1[v]);
                        if exists|j: int| 0 <= j < k + 1 && (#[trigger] conflict_lits[j]).var() == v {
                            let j = choose|j: int|
                                0 <= j < k + 1 && (#[trigger] conflict_lits[j]).var() == v;
                            assert(j < k);
                        }
                    }
                }
            }
            k += 1;
        }
        proof {
            assert(self.inv());
        }
        let mut marks: Vec<bool> = vec![false; self.variables.len()];
        let mut lits: Vec<Literal> = Vec::new();
        let mut queue: Vec<usize> = Vec::with_capacity(self.clauses[cid].len());
        let mut implicated: usize = usize::MAX;
        let mut cid = cid;
        let ghost witness = choose|k: int|
            0 <= k < conflict_lits.len() && lit_depth(self.variables@, #[trigger] conflict_lits[k])
                == self.depth.0;
        let ghost seen = conflict_lits[witness].var();
        let ghost mut started = false;
        let ghost mut pending = Seq::<int>::empty();
        let ghost mut current: int = -1;
        let ghost cid0 = cid;
        proof {
            assert(self.clauses@[cid as int].wf(self.variables@.len()));
            assert(lit_false(self.variables@, conflict_lits[witness]));
            assert forall|k: int| 0 <= k < conflict_lits.len() implies lit_assigned(
                self.variables@,
                #[trigger] conflict_lits[k],
            ) && lit_false(self.variables@, conflict_lits[k]) by {
                assert(lit_false(self.variables@, conflict_lits[k]));
            }
        }
        loop
            invariant
                self.inv(),
                self.depth.0 >= 1,
                marks@.len() == self.variables@.len(),
                self.all_assigned(cid),
                self.false_but_marked(cid, marks@),
                forall|q: int|
                    0 <= q < queue@.len() ==> self.all_assigned(#[trigger] queue@[q])
                        && self.false_but_marked(queue@[q], marks@),
                self.learning(lits@, implicated),
                forall|k: int| 0 <= k < lits@.len() ==> marks@[(#[trigger] lits@[k]).var()],
                forall|v: int|
                    0 <= v < marks@.len() && #[trigger] marks@[v] && self.variables@[v].assigned()
                        && self.variables@[v].depth == self.depth ==> implicated != usize::MAX,
                0 <= seen < self.variables@.len(),
                self.variables@[seen].assigned(),
                self.variables@[seen].depth == self.depth,
                started ==> marks@[seen],
                !started ==> exists|k: int|
                    0 <= k < self.clauses@[cid as int].lits().len() && (#[trigger] self.clauses@[cid as int].lits()[k]).var()
                        == seen,
                cid0 < self.clauses@.len(),
                self.clauses@[cid0 as int].falsified(self.variables@),
                !started ==> cid == cid0 && current == -1,
                started ==> forall|k: int|
                    0 <= k < self.clauses@[cid0 as int].lits().len() ==> marks@[(
                    #[trigger] self.clauses@[cid0 as int].lits()[k]).var()],
                self.queued(queue@, pending, marks@),
                current == -1 || (marks@[current] && self.forced(current) && cid
                    == self.variables@[current].ante),
                self.all_justified(marks@, lits@, pending, current),
            ensures
                implicated != usize::MAX,
                self.closes(marks@),
                self.all_justified(marks@, lits@, Seq::<int>::empty(), -1),
            decreases count_false(marks@) + queue@.len(),
        {
            let ghost measure = count_false(marks@) + queue@.len();
            let ghost clause_lits = self.clauses@[cid as int].lits();
            let mut i: usize = 0;
            while i < self.clauses[cid].len()
                invariant
                    i <= clause_lits.len(),
                    clause_lits == self.clauses@[cid as int].lits(),
                    self.inv(),
                    self.depth.0 >= 1,
                    marks@.len() == self.variables@.len(),
                    self.all_assigned(cid),
                    self.false_but_marked(cid, marks@),
                    forall|q: int|
                        0 <= q < queue@.len() ==> self.all_assigned(#[trigger] queue@[q])
                            && self.false_but_marked(queue@[q], marks@),
                    self.learning(lits@, implicated),
                    forall|k: int| 0 <= k < lits@.len() ==> marks@[(#[trigger] lits@[k]).var()],
                    forall|v: int|
                        0 <= v < marks@.len() && #[trigger] marks@[v] && self.variables@[v].assigned()
                            && self.variables@[v].depth == self.depth ==> implicated != usize::MAX,
                    forall|k: int| 0 <= k < i ==> marks@[(#[trigger] clause_lits[k]).var()],
                    started ==> marks@[seen],
                    0 <= seen < self.variables@.len(),
                    count_false(marks@) + queue@.len() <= measure,
                    cid0 < self.clauses@.len(),
                    started ==> forall|k: int|
                        0 <= k < self.clauses@[cid0 as int].lits().len() ==> marks@[(
                        #[trigger] self.clauses@[cid0 as int].lits()[k]).var()],
                    self.queued(queue@, pending, marks@),
                    current == -1 || (marks@[current] && self.forced(current) && cid
                        == self.variables@[current].ante),
                    self.all_justified(marks@, lits@, pending, current),
                decreases clause_lits.len() - i,
            {
                let (id, negated) = self.clauses[cid].literals[i].disassemble();
                let x = id.to_usize();
                proof {
                    assert(self.clauses@[cid as int].wf(self.variables@.len()));
                    assert(clause_lits[i as int].var() == x);
                    assert(lit_assigned(self.variables@, clause_lits[i as int]));
                }
                if !marks[x] {
                    let ghost marks0 = marks@;
                    let ghost queue0 = queue@;
                    let ghost pending0 = pending;
                    let ghost lits_before = lits@;
                    let ghost lit0 = clause_lits[i as int];
                    marks.set(x, true);
                    proof {
                        assert(lit_false(self.variables@, lit0));
                        self.lemma_marks_grown(cid, marks0, marks@);
                        assert forall|q: int| 0 <= q < queue0.len() implies self.false_but_marked(
                            #[trigger] queue0[q],
                            marks@,
                        ) by {
                            self.lemma_marks_grown(queue0[q], marks0, marks@);
                        }
                        lemma_count_false_set(marks0, x as int);
                        crate::cnf::literal::lemma_literal_parts_decide(
                            Literal::spec_new(id, negated),
                            lit0,
                        );
                    }
                    let d = self.variables[x].get_depth().to_usize();
                    if d == self.depth.to_usize() {
                        let ante = self.variables[x].get_ante();
                        if ante == usize::MAX {
                            if implicated != usize::MAX {
                                let other = lits[implicated].id().to_usize();
                                proof {
                                    assert(marks0[lits@[implicated as int].var()]);
                                    self.lemma_one_decision(other as int, x as int);
                                    self.lemma_reason_assigned(other as int);
                                    assert(self.false_but_marked(self.variables@[other as int].ante, marks@));
                                }
                                queue.push(self.variables[other].get_ante());
                                proof {
                                    pending = pending.push(other as int);
                                    assert(lits.len() == lits@.len());
                                    self.lemma_removed_learning(lits@, implicated);
                                }
                                let ghost lits0 = lits@;
                                lits.swap_remove(implicated);
                                proof {
                                    assert forall|k: int| 0 <= k < lits@.len() implies marks0[(
                                    #[trigger] lits@[k]).var()] by {
                                        assert(lits0.contains(lits@[k]));
                                        let w = choose|w: int| 0 <= w < lits0.len() && lits0[w] == lits@[k];
                                        assert(marks0[lits0[w].var()]);
                                    }
                                }
                            }
                            let ghost lits1 = lits@;
                            let ghost noted = if implicated != usize::MAX { usize::MAX } else { implicated };
                            implicated = lits.len();
                            lits.push(Literal::new(id, negated));
                            proof {
                                assert(lits.len() == lits@.len());
                                self.lemma_pushed_learning(lits1, lit0, marks0, noted);
                            }
                        } else if implicated != usize::MAX {
                            proof {
                                self.lemma_reason_assigned(x as int);
                                assert(self.false_but_marked(ante, marks@));
                                assert forall|k: int| 0 <= k < lits@.len() implies marks@[(
                                #[trigger] lits@[k]).var()] by {
                                    assert(marks0[lits@[k].var()]);
                                }
                                pending = pending.push(x as int);
                            }
                            queue.push(ante);
                        } else {
                            let ghost lits1 = lits@;
                            implicated = lits.len();
                            lits.push(Literal::new(id, negated));
                            proof {
                                assert(lits.len() == lits@.len());
                                self.lemma_pushed_learning(lits1, lit0, marks0, usize::MAX);
                            }
                        }
                    } else if d != 0 {
                        let ghost lits1 = lits@;
                        lits.push(Literal::new(id, negated));
                        proof {
                            assert(lits.len() == lits@.len());
                            self.lemma_pushed_learning(lits1, lit0, marks0, implicated);
                        }
                    } else {
                        proof {
                            assert forall|k: int| 0 <= k < lits@.len() implies marks@[(
                            #[trigger] lits@[k]).var()] by {
                                assert(marks0[lits@[k].var()]);
                            }
                        }
                    }
                    proof {
                        assert forall|q: int| 0 <= q < queue@.len() implies self.all_assigned(
                            #[trigger] queue@[q],
                        ) && self.false_but_marked(queue@[q], marks@) by {
                            if q < queue0.len() {
                                assert(queue@[q] == queue0[q]);
                            }
                        }
                        assert forall|k: int| 0 <= k < i + 1 implies marks@[(
                        #[trigger] clause_lits[k]).var()] by {
                            if k < i {
                                assert(marks0[clause_lits[k].var()]);
                            }
                        }
                        assert forall|v: int|
                            0 <= v < marks@.len() && #[trigger] marks@[v] && self.variables@[v].assigned()
                                && self.variables@[v].depth == self.depth implies implicated
                            != usize::MAX by {
                            if v != x {
                                assert(marks0[v]);
                            }
                        }
                        self.lemma_noted(
                            marks0,
                            marks@,
                            lits_before,
                            lits@,
                            queue0,
                            queue@,
                            pending0,
                            pending,
                            current,
                            x as int,
                        );
                        assert forall|k: int|
                            0 <= k < self.clauses@[cid0 as int].lits().len() && started implies marks@[(
                        #[trigger] self.clauses@[cid0 as int].lits()[k]).var()] by {
                            assert(marks0[self.clauses@[cid0 as int].lits()[k].var()]);
                        }
                        if current != -1 {
                            assert(marks0[current]);
                        }
                    }
                }
                i += 1;
            }
            proof {
                if !started {
                    let k = choose|k: int|
                        0 <= k < clause_lits.len() && (#[trigger] clause_lits[k]).var() == seen;
                    assert(marks@[clause_lits[k].var()]);
                    started = true;
                }
                // The clause has been gone through: the variable it forced is accounted for.
                self.lemma_scanned(marks@, lits@, pending, current, cid);
                if queue@.len() > 0 {
                    let next = pending.last();
                    let rest = pending.drop_last();
                    assert(self.all_justified(marks@, lits@, rest, next)) by {
                        assert forall|v: int| 0 <= v < marks@.len() && #[trigger] marks@[v] implies self.justified(
                            v,
                            marks@,
                            lits@,
                            rest,
                            next,
                        ) by {
                            assert(self.justified(v, marks@, lits@, pending, -1));
                            if pending.contains(v) {
                                let q = choose|q: int| 0 <= q < pending.len() && pending[q] == v;
                                if q < rest.len() {
                                    assert(rest[q] == v);
                                }
                            }
                        }
                    }
                    assert(self.queued(queue@.drop_last(), rest, marks@)) by {
                        assert forall|q: int| 0 <= q < rest.len() implies self.queued_at(
                            queue@.drop_last(),
                            rest,
                            marks@,
                            q,
                        ) by {
                            assert(self.queued_at(queue@, pending, marks@, q));
                        }
                    }
                    assert(self.queued_at(queue@, pending, marks@, pending.len() - 1));
                    pending = rest;
                    current = next;
                } else {
                    assert(pending =~= Seq::<int>::empty());
                    current = -1;
                    assert(self.clauses@[cid0 as int].falsified(self.variables@));
                }
            }
            match queue.pop() {
                None => {
                    break ;
                },
                Some(t) => {
                    cid = t;
                },
            }
        }
        proof {
            assert(lits.len() == lits@.len());
            assert(self.learning(lits@, (implicated as int) as usize));
            assert(self.sound() == old(self).sound());
        }
        self.minimize(&mut lits, marks);
        lits
    }

    /// Each clause that is still to be gone through has forced the marked
    /// variable that is noted beside it.
    pub open(crate) spec fn queued(&self, queue: Seq<usize>, pending: Seq<int>, marks: Seq<bool>) -> bool {
        &&& pending.len() == queue.len()
        &&& forall|q: int| 0 <= q < queue.len() ==> #[trigger] self.queued_at(queue, pending, marks, q)
    }

    /// The clause at `q` has forced the marked variable noted beside it.
    pub open(crate) spec fn queued_at(
        &self,
        queue: Seq<usize>,
        pending: Seq<int>,
        marks: Seq<bool>,
        q: int,
    ) -> bool {
        &&& self.forced(pending[q])
        &&& marks[pending[q]]
        &&& queue[q] == self.variables@[pending[q]].ante
    }

    /// When a clause has been gone through and all its variables are marked,
    /// the variable that it forced is accounted for.
    pub(crate) proof fn lemma_scanned(
        &self,
        marks: Seq<bool>,
        lits: Seq<Literal>,
        pending: Seq<int>,
        current: int,
        cid: usize,
    )
        requires
            self.inv(),
            self.all_justified(marks, lits, pending, current),
            cid < self.clauses@.len(),
            current == -1 || (self.forced(current) && cid == self.variables@[current].ante),
            forall|k: int|
                0 <= k < self.clauses@[cid as int].lits().len() ==> marks[(
                #[trigger] self.clauses@[cid as int].lits()[k]).var()],
        ensures
            self.all_justified(marks, lits, pending, -1),
    {
        assert forall|v: int| 0 <= v < marks.len() && #[trigger] marks[v] implies self.justified(
            v,
            marks,
            lits,
            pending,
            -1,
        ) by {
            assert(self.justified(v, marks, lits, pending, current));
            if v == current {
                assert(self.expanded(v, marks));
            }
        }
    }

    /// What marking the variable `x` and noting it, in the clause or among
    /// the clauses to be gone through, does to the account of the marked
    /// variables.
    pub(crate) proof fn lemma_noted(
        &self,
        marks0: Seq<bool>,
        marks1: Seq<bool>,
        lits0: Seq<Literal>,
        lits1: Seq<Literal>,
        queue0: Seq<usize>,
        queue1: Seq<usize>,
        pending0: Seq<int>,
        pending1: Seq<int>,
        current: int,
        x: int,
    )
        requires
            self.inv(),
            self.all_justified(marks0, lits0, pending0, current),
            self.queued(queue0, pending0, marks0),
            0 <= x < marks0.len(),
            !marks0[x],
            marks1 == marks0.update(x, true),
            self.variables@[x].assigned(),
            pending1.len() == queue1.len(),
            // the variable is noted in one of three ways
            ({
                ||| (pending1 == pending0 && queue1 == queue0 && self.variables@[x].depth.0 == 0 && lits1
                    == lits0)
                ||| (pending1 == pending0 && queue1 == queue0 && lits1 == lits0.push(lits1.last())
                    && lits1.len() == lits0.len() + 1 && lits1.last().var() == x)
                ||| (pending1 == pending0.push(x) && queue1 == queue0.push(self.variables@[x].ante)
                    && self.forced(x) && lits1 == lits0)
                ||| (exists|gone: int|
                    0 <= gone < lits0.len() && self.forced(lits0[gone].var()) && marks0[lits0[gone].var()]
                        && pending1 == pending0.push(lits0[gone].var()) && queue1 == queue0.push(
                        self.variables@[lits0[gone].var()].ante,
                    ) && lits1 == lits0.update(gone, lits0.last()).drop_last().push(lits1.last())
                        && lits1.len() == lits0.len() && lits1.last().var() == x)
            }),
        ensures
            self.all_justified(marks1, lits1, pending1, current),
            self.queued(queue1, pending1, marks1),
    {
        assert forall|q: int| 0 <= q < queue1.len() implies #[trigger] self.queued_at(
            queue1,
            pending1,
            marks1,
            q,
        ) by {
            if q < queue0.len() {
                assert(self.queued_at(queue0, pending0, marks0, q));
                assert(pending1[q] == pending0[q]);
                assert(queue1[q] == queue0[q]);
            }
        }
        assert forall|q: int| 0 <= q < pending0.len() implies pending1.contains(
            #[trigger] pending0[q],
        ) by {
            assert(pending1[q] == pending0[q]);
        }
        assert forall|k: int| 0 <= k < lits0.len() implies pending1.contains(
            (#[trigger] lits0[k]).var(),
        ) || exists|j: int| 0 <= j < lits1.len() && (#[trigger] lits1[j]).var() == lits0[k].var() by {
            if lits1 == lits0 {
                assert(lits1[k].var() == lits0[k].var());
            } else if lits1.len() == lits0.len() + 1 {
                assert(lits1[k] == lits0[k]);
            } else {
                let gone = choose|gone: int|
                    0 <= gone < lits0.len() && self.forced(lits0[gone].var()) && marks0[lits0[gone].var()]
                        && pending1 == pending0.push(lits0[gone].var()) && queue1 == queue0.push(
                        self.variables@[lits0[gone].var()].ante,
                    ) && lits1 == lits0.update(gone, lits0.last()).drop_last().push(lits1.last())
                        && lits1.len() == lits0.len() && lits1.last().var() == x;
                if k == gone {
                    assert(pending1[pending0.len() as int] == lits0[gone].var());
                } else {
                    let j = if k == lits0.len() - 1 { gone } else { k };
                    assert(lits1[j] == lits0[k]);
                }
            }
        }
        assert forall|u: int|
            0 <= u < marks1.len() && #[trigger] marks1[u] && !marks0[u] implies self.justified(
            u,
            marks1,
            lits1,
            pending1,
            current,
        ) by {
            assert(u == x);
            if lits1 == lits0 && pending1 != pending0 {
                assert(pending1[pending0.len() as int] == x);
            } else if lits1 != lits0 {
                assert(lits1[lits1.len() - 1].var() == x);
            }
        }
        self.lemma_justified_step(marks0, marks1, lits0, lits1, pending0, pending1, current);
    }

    /// A literal over a variable that has just been marked can join the
    /// literals that are being learned. Where it lies at the current depth, no
    /// other literal does, and it is the one that is noted.
    pub(crate) proof fn lemma_pushed_learning(
        &self,
        before: Seq<Literal>,
        lit: Literal,
        marks: Seq<bool>,
        implicated: usize,
    )
        requires
            lit.var() < self.variables@.len(),
            marks.len() == self.variables@.len(),
            !marks[lit.var()],
            before.len() < usize::MAX,
            lit_false(self.variables@, lit),
            1 <= self.variables@[lit.var()].depth.0 <= self.depth.0,
            self.learning(before, implicated),
            self.variables@[lit.var()].depth.0 == self.depth.0 ==> implicated == usize::MAX,
            forall|k: int| 0 <= k < before.len() ==> marks[(#[trigger] before[k]).var()],
        ensures
            self.learning(
                before.push(lit),
                if self.variables@[lit.var()].depth.0 == self.depth.0 {
                    before.len() as usize
                } else {
                    implicated
                },
            ),
            forall|k: int|
                0 <= k < before.push(lit).len() ==> marks.update(lit.var(), true)[(
                #[trigger] before.push(lit)[k]).var()],
    {
        let after = before.push(lit);
        let x = lit.var();
        let noted = if self.variables@[x].depth.0 == self.depth.0 {
            before.len() as usize
        } else {
            implicated
        };
        assert forall|k: int| 0 <= k < after.len() implies {
            &&& (#[trigger] after[k]).var() < self.variables@.len()
            &&& lit_false(self.variables@, after[k])
            &&& 1 <= self.variables@[after[k].var()].depth.0 <= self.depth.0
            &&& (self.variables@[after[k].var()].depth.0 == self.depth.0 <==> k == noted)
            &&& marks.update(x, true)[after[k].var()]
        } by {
            if k < before.len() {
                assert(after[k] == before[k]);
                assert(marks[before[k].var()]);
            }
        }
        assert forall|i: int, j: int| 0 <= i < j < after.len() implies after[i].var()
            != after[j].var() by {
            if j < before.len() {
                assert(before[i].var() != before[j].var());
            } else {
                assert(marks[before[i].var()]);
            }
        }
    }

    /// Taking the literal at the current depth out of the literals that are
    /// being learned leaves literals below the current depth.
    pub(crate) proof fn lemma_removed_learning(&self, before: Seq<Literal>, implicated: usize)
        requires
            self.learning(before, implicated),
            implicated < before.len(),
            before.len() <= usize::MAX,
        ensures
            self.learning(before.update(implicated as int, before.last()).drop_last(), usize::MAX),
            forall|k: int|
                0 <= k < before.len() - 1 ==> before.contains(
                    #[trigger] before.update(implicated as int, before.last()).drop_last()[k],
                ),
    {
        let after = before.update(implicated as int, before.last()).drop_last();
        assert forall|k: int| 0 <= k < after.len() implies {
            &&& (#[trigger] after[k]).var() < self.variables@.len()
            &&& lit_false(self.variables@, after[k])
            &&& 1 <= self.variables@[after[k].var()].depth.0 <= self.depth.0
            &&& (self.variables@[after[k].var()].depth.0 == self.depth.0 <==> k == usize::MAX)
            &&& before.contains(after[k])
        } by {
            let src = if k == implicated { before.len() - 1 } else { k };
            assert(after[k] == before[src]);
        }
        assert forall|a: int, b: int| 0 <= a < b < after.len() implies after[a].var()
            != after[b].var() by {
            let sa = if a == implicated { before.len() - 1 } else { a };
            let sb = if b == implicated { before.len() - 1 } else { b };
            assert(after[a] == before[sa] && after[b] == before[sb]);
            if sa < sb {
                assert(before[sa].var() != before[sb].var());
            } else {
                assert(before[sb].var() != before[sa].var());
            }
        }
    }

    /// The search is under way: a decision has been made at least.
    pub open(crate) spec fn searching(&self) -> bool {
        self.inv() && self.depth.0 >= 1
    }

    /// What holds of the literals that a conflict has taught: there is one at
    /// least; they are over different variables, all assigned above depth 0;
    /// one of them lies at the current depth.
    pub open(crate) spec fn learned(&self, lits: Seq<Literal>) -> bool {
        &&& lits.len() >= 1
        &&& exists|u: int| 0 <= u < lits.len() && #[trigger] self.learning(lits, u as usize)
    }

    /// Makes a clause that is being learned smaller. A literal whose
    /// variable was forced, below the current depth, is taken out if the
    /// clause that has forced it holds, besides it, only literals at depth 0,
    /// literals that the conflict has already met, and literals that can be
    /// taken out in the same way.
    #[verifier::rlimit(80)]
    pub fn minimize(&self, lits: &mut Vec<Literal>, marks: Vec<bool>)
        requires
            self.searching(),
            marks@.len() == self.size(),
            self.learned(old(lits)@),
        ensures
            self.learned(final(lits)@),
            forall|k: int| 0 <= k < final(lits)@.len() ==> old(lits)@.contains(#[trigger] final(lits)@[k]),
            self.sound() && self.explains(marks@, old(lits)@) ==> self.follows(final(lits)@),
            forall|k: int| 0 <= k < final(lits)@.len() ==> self.stays((#[trigger] final(lits)@[k]).var(), marks@),
            forall|l: Literal|
                old(lits)@.contains(l) && !final(lits)@.contains(l) ==> !self.stays(#[trigger] l.var(), marks@),
    {
        let mut marks = marks;
        let ghost given = lits@;
        let ghost marks0 = marks@;
        let ghost proving = self.sound() && self.explains(marks0, given);
        let ghost mut uip = (choose|u: int| 0 <= u < lits@.len() && #[trigger] self.learning(lits@, u as usize));
        let mut i: usize = 0;
        proof {
            assert(lits.len() == lits@.len());
        }
        while i < lits.len()
            invariant
                i <= lits@.len(),
                self.inv(),
                self.depth.0 >= 1,
                marks@.len() == self.variables@.len(),
                0 <= uip < lits@.len(),
                lits@.len() <= usize::MAX,
                self.learning(lits@, uip as usize),
                given == old(lits)@,
                forall|k: int| 0 <= k < lits@.len() ==> given.contains(#[trigger] lits@[k]),
                proving ==> self.sound() && self.explains(marks@, lits@),
                marks0.len() == self.variables@.len(),
                forall|u: int| 0 <= u < marks0.len() && marks0[u] ==> #[trigger] marks@[u],
                forall|u: int| 0 <= u < marks@.len() && #[trigger] marks@[u] ==> marks0[u] || self.subsumed(u, marks0),
                forall|k: int| 0 <= k < i ==> self.stays((#[trigger] lits@[k]).var(), marks0),
                forall|l: Literal|
                    given.contains(l) && !lits@.contains(l) ==> !self.stays(#[trigger] l.var(), marks0),
            decreases lits@.len() - i,
        {
            let x = lits[i].id().to_usize();
            proof {
                assert(lits@[i as int].var() == x);
            }
            if self.variables[x].get_ante() != usize::MAX && self.variables[x].get_depth().to_usize()
                != self.depth.to_usize() {
                let ghost marks1 = marks@;
                let gone = self.variables[x].get_depth().to_usize() == 0 || self.subsumption_check(
                    VariableId::from_usize(x),
                    &mut marks,
                    Ghost(lits@),
                );
                proof {
                    self.lemma_subsumed_stable(x as int, marks0, marks1);
                    assert forall|u: int| 0 <= u < marks@.len() && #[trigger] marks@[u] implies marks0[u]
                        || self.subsumed(u, marks0) by {
                        if !marks1[u] {
                            assert(self.subsumed(u, marks1));
                            self.lemma_subsumed_stable(u, marks0, marks1);
                        }
                    }
                    assert forall|u: int| 0 <= u < marks0.len() && marks0[u] implies #[trigger] marks@[u] by {
                        assert(marks1[u]);
                    }
                    assert(gone == self.subsumed(x as int, marks0));
                }
                if gone {
                    let ghost lits0 = lits@;
                    lits.swap_remove(i);
                    proof {
                        let lits1 = lits@;
                        assert forall|k: int| 0 <= k < i implies self.stays((#[trigger] lits1[k]).var(), marks0) by {
                            assert(lits1[k] == lits0[k]);
                        }
                        assert forall|l: Literal|
                            given.contains(l) && !lits1.contains(l) implies !self.stays(
                            #[trigger] l.var(),
                            marks0,
                        ) by {
                            if lits0.contains(l) {
                                let j = choose|j: int| 0 <= j < lits0.len() && lits0[j] == l;
                                if j != i {
                                    let t = if j == lits0.len() - 1 { i as int } else { j };
                                    assert(lits1[t] == l);
                                }
                                assert(l == lits0[i as int]);
                            }
                        }
                        if proving {
                            self.lemma_dropped(marks@, lits0, i as int);
                        }
                        let uip1 = if uip == lits0.len() - 1 { i as int } else { uip };
                        assert(uip != i);
                        assert forall|k: int| 0 <= k < lits1.len() implies {
                            &&& (#[trigger] lits1[k]).var() < self.variables@.len()
                            &&& lit_false(self.variables@, lits1[k])
                            &&& 1 <= self.variables@[lits1[k].var()].depth.0 <= self.depth.0
                            &&& (self.variables@[lits1[k].var()].depth.0 == self.depth.0 <==> k == uip1)
                            &&& given.contains(lits1[k])
                        } by {
                            let src = if k == i { lits0.len() - 1 } else { k };
                            assert(lits1[k] == lits0[src]);
                        }
                        assert forall|a: int, b: int| 0 <= a < b < lits1.len() implies lits1[a].var()
                            != lits1[b].var() by {
                            let sa = if a == i { lits0.len() - 1 } else { a };
                            let sb = if b == i { lits0.len() - 1 } else { b };
                            assert(lits1[a] == lits0[sa] && lits1[b] == lits0[sb]);
                            if sa < sb {
                                assert(lits0[sa].var() != lits0[sb].var());
                            } else {
                                assert(lits0[sb].var() != lits0[sa].var());
                            }
                        }
                        uip = uip1;
                    }
                } else {
                    i += 1;
                }
            } else {
                i += 1;
            }
        }
        proof {
            if proving {
                self.lemma_learned_entailed(marks@, lits@);
            }
        }
    }

    /// The marked variables account for the clause `lits`: each of them is
    /// justified, and some falsified clause has all its variables marked.
    pub open(crate) spec fn explains(&self, marks: Seq<bool>, lits: Seq<Literal>) -> bool {
        self.all_justified(marks, lits, Seq::<int>::empty(), -1) && self.closes(marks)
    }

    /// The clause `lits` follows from the clauses that the problem was made
    /// from.
    pub open(crate) spec fn follows(&self, lits: Seq<Literal>) -> bool {
        entails(self.origin@, self.variables@.len(), lits)
    }

    /// A literal whose variable was forced by marked variables can leave the
    /// clause that is being learned.
    pub(crate) proof fn lemma_dropped(&self, marks: Seq<bool>, lits: Seq<Literal>, i: int)
        requires
            self.inv(),
            0 <= i < lits.len(),
            self.all_justified(marks, lits, Seq::<int>::empty(), -1),
            self.expanded(lits[i].var(), marks),
        ensures
            self.all_justified(
                marks,
                lits.update(i, lits.last()).drop_last(),
                Seq::<int>::empty(),
                -1,
            ),
    {
        let after = lits.update(i, lits.last()).drop_last();
        let none = Seq::<int>::empty();
        assert forall|v: int| 0 <= v < marks.len() && #[trigger] marks[v] implies self.justified(
            v,
            marks,
            after,
            none,
            -1,
        ) by {
            assert(self.justified(v, marks, lits, none, -1));
            if exists|k: int| 0 <= k < lits.len() && (#[trigger] lits[k]).var() == v {
                let k = choose|k: int| 0 <= k < lits.len() && (#[trigger] lits[k]).var() == v;
                if k != i {
                    let j = if k == lits.len() - 1 { i } else { k };
                    assert(after[j] == lits[k]);
                }
            }
        }
    }

    /// Whether the literal of the variable `vid` follows from literals that
    /// the clause being learned holds already: whether the clause that has
    /// forced it holds, besides it, only literals at depth 0, marked literals
    /// and literals of which the same is true. The latter are then marked.
    ///
    /// So the answer tells whether the variable is subsumed under the marks
    /// that were given, and the marks that are added are marks of variables
    /// that are subsumed under them.
    pub(crate) fn subsumption_check(
        &self,
        vid: VariableId,
        marks: &mut Vec<bool>,
        Ghost(given): Ghost<Seq<Literal>>,
    ) -> (r: bool)
        requires
            self.inv(),
            vid.0 < self.variables@.len(),
            self.variables@[vid.0 as int].assigned(),
            self.variables@[vid.0 as int].depth.0 >= 1,
            self.variables@[vid.0 as int].ante != usize::MAX,
            old(marks)@.len() == self.variables@.len(),
        ensures
            final(marks)@.len() == old(marks)@.len(),
            forall|v: int| 0 <= v < old(marks)@.len() && old(marks)@[v] ==> #[trigger] final(marks)@[v],
            self.explains(old(marks)@, given) ==> self.explains(final(marks)@, given),
            r ==> self.expanded(vid.0 as int, final(marks)@),
            r == self.subsumed(vid.0 as int, old(marks)@),
            forall|u: int|
                0 <= u < final(marks)@.len() && #[trigger] final(marks)@[u] ==> old(marks)@[u] || self.subsumed(
                    u,
                    old(marks)@,
                ),
        decreases self.place@[vid.0 as int],
    {
        let v = vid.to_usize();
        let ante = self.variables[v].get_ante();
        let ghost given_marks = marks@;
        proof {
            self.lemma_reason_assigned(v as int);
            assert(self.clauses@[ante as int].wf(self.variables@.len()));
        }
        let ghost lits = self.clauses@[ante as int].lits();
        let mut i: usize = 0;
        while i < self.clauses[ante].len()
            invariant
                i <= lits.len(),
                lits == self.clauses@[ante as int].lits(),
                ante < self.clauses@.len(),
                ante == self.variables@[v as int].ante,
                v == vid.0,
                self.inv(),
                v < self.variables@.len(),
                self.variables@[v as int].assigned(),
                self.variables@[v as int].depth.0 >= 1,
                self.all_assigned(ante),
                ante != usize::MAX,
                lits_in_range(lits, self.variables@.len()),
                marks@.len() == self.variables@.len(),
                old(marks)@.len() == self.variables@.len(),
                forall|u: int| 0 <= u < old(marks)@.len() && old(marks)@[u] ==> #[trigger] marks@[u],
                given_marks == old(marks)@,
                forall|u: int|
                    0 <= u < marks@.len() && #[trigger] marks@[u] ==> given_marks[u] || self.subsumed(
                        u,
                        given_marks,
                    ),
                self.explains(old(marks)@, given) ==> self.explains(marks@, given),
                forall|k: int|
                    0 <= k < i ==> {
                        let u = (#[trigger] lits[k]).var();
                        u == v || marks@[u] || self.variables@[u].depth.0 == 0
                    },
            decreases lits.len() - i,
        {
            let id = self.clauses[ante].literals[i].id();
            let x = id.to_usize();
            proof {
                assert(lits[i as int].var() == x);
                assert(lit_assigned(self.variables@, lits[i as int]));
            }
            if v != x && !marks[x] && self.variables[x].get_depth().to_usize() != 0 {
                if self.variables[x].get_ante() != usize::MAX {
                    proof {
                        let trail = self.applications@;
                        let place = self.place@;
                        self.lemma_reason_assigned(v as int);
                        assert(implied_by(self.variables@, trail, place, lits, v as int));
                        assert(lits[i as int].var() != v);
                        assert(on_trail(trail, place, x as int));
                        assert(place[x as int] < place[v as int]);
                    }
                    let ghost marks0 = marks@;
                    let subsumed = self.subsumption_check(id, marks, Ghost(given));
                    proof {
                        assert forall|u: int| 0 <= u < old(marks)@.len() && old(marks)@[u] implies #[trigger] marks@[u] by {
                            assert(marks0[u]);
                        }
                        // What is subsumed under the marks of this moment is
                        // subsumed under the marks that were given.
                        self.lemma_subsumed_stable(x as int, given_marks, marks0);
                        assert forall|u: int| 0 <= u < marks@.len() && #[trigger] marks@[u] implies given_marks[u]
                            || self.subsumed(u, given_marks) by {
                            if !marks0[u] {
                                assert(self.subsumed(u, marks0));
                                self.lemma_subsumed_stable(u, given_marks, marks0);
                            }
                        }
                    }
                    if subsumed {
                        let ghost marks1 = marks@;
                        marks.set(x, true);
                        proof {
                            assert forall|u: int| 0 <= u < marks@.len() && #[trigger] marks@[u] implies given_marks[u]
                                || self.subsumed(u, given_marks) by {
                                if u != x {
                                    assert(marks1[u]);
                                }
                            }
                            assert forall|u: int| 0 <= u < old(marks)@.len() && old(marks)@[u] implies #[trigger] marks@[u] by {
                                assert(marks1[u]);
                            }
                            self.lemma_expanded_grown(x as int, marks1, marks@);
                            if self.explains(old(marks)@, given) {
                                self.lemma_marked_more(marks1, marks@, given, x as int);
                            }
                            assert forall|k: int| 0 <= k < i + 1 implies {
                                let u = (#[trigger] lits[k]).var();
                                u == v || marks@[u] || self.variables@[u].depth.0 == 0
                            } by {
                                let u = lits[k].var();
                                if k < i && marks0[u] {
                                    assert(marks1[u]);
                                }
                            }
                        }
                    } else {
                        proof {
                            self.lemma_not_subsumed(v as int, given_marks, i as int);
                        }
                        return false;
                    }
                } else {
                    proof {
                        self.lemma_not_subsumed(v as int, given_marks, i as int);
                    }
                    return false;
                }
            }
            i += 1;
        }
        proof {
            self.lemma_expanded_subsumed(v as int, marks@);
            self.lemma_subsumed_stable(v as int, given_marks, marks@);
        }
        true
    }

    /// A variable is not subsumed where the clause that forced it holds, at
    /// `k`, another variable that is neither marked nor fixed at depth 0 nor
    /// subsumed.
    pub(crate) proof fn lemma_not_subsumed(&self, v: int, marks: Seq<bool>, k: int)
        requires
            self.forced(v),
            0 <= k < self.clauses@[self.variables@[v].ante as int].lits().len(),
            ({
                let u = self.clauses@[self.variables@[v].ante as int].lits()[k].var();
                u != v && !marks[u] && self.variables@[u].depth.0 != 0 && !self.subsumed(u, marks)
            }),
        ensures
            !self.subsumed(v, marks),
    {
        let u = self.clauses@[self.variables@[v].ante as int].lits()[k].var();
        if self.subsumed(v, marks) {
            assert(u == v || marks[u] || self.variables@[u].depth.0 == 0 || (0 <= self.stood(u) < self.stood(v)
                && self.subsumed(u, marks)));
        }
    }

    /// Marking a variable that was forced by marked variables keeps the
    /// account of the marked variables.
    pub(crate) proof fn lemma_marked_more(
        &self,
        before: Seq<bool>,
        after: Seq<bool>,
        lits: Seq<Literal>,
        x: int,
    )
        requires
            self.inv(),
            self.explains(before, lits),
            0 <= x < before.len(),
            after == before.update(x, true),
            self.expanded(x, after),
        ensures
            self.explains(after, lits),
    {
        let none = Seq::<int>::empty();
        assert forall|u: int|
            0 <= u < after.len() && #[trigger] after[u] && !before[u] implies self.justified(
            u,
            after,
            lits,
            none,
            -1,
        ) by {
        }
        self.lemma_justified_step(before, after, lits, lits, none, none, -1);
        let cid = choose|cid: int|
            0 <= cid < self.clauses@.len() && (#[trigger] self.clauses@[cid]).falsified(
                self.variables@,
            ) && forall|k: int|
                0 <= k < self.clauses@[cid].lits().len() ==> before[(
                #[trigger] self.clauses@[cid].lits()[k]).var()];
        assert(self.clauses@[cid].wf(self.variables@.len()));
        assert forall|k: int| 0 <= k < self.clauses@[cid].lits().len() implies after[(
        #[trigger] self.clauses@[cid].lits()[k]).var()] by {
            assert(before[self.clauses@[cid].lits()[k].var()]);
        }
    }
}

/// The watch lists are in order when a clause is added that no list holds.
pub(crate) proof fn lemma_watch_pushed(vars: Seq<Variable>, clauses: Seq<Clause>, clause: Clause)
    requires
        watch_ok(vars, clauses),
        clause.wf(vars.len()),
        clauses.len() < usize::MAX,
    ensures
        watch_ok(vars, clauses.push(clause)),
        unlinked(vars, clauses.len() as usize),
{
    let after = clauses.push(clause);
    let cid = clauses.len() as usize;
    assert forall|v: int, n: bool| 0 <= v < vars.len() implies !#[trigger] holds(vars, cid, v, n) by {
        if holds(vars, cid, v, n) {
            assert(cid < clauses.len());
        }
    }
    assert forall|c: int| 0 <= c < after.len() implies (#[trigger] after[c]).wf(vars.len()) && (
    after[c].linked(c as usize, vars) || unlinked(vars, c as usize)) by {
        if c < clauses.len() {
            assert(after[c] == clauses[c]);
        }
    }
}

/// The reasons stay in order when a clause is added.
pub(crate) proof fn lemma_reasons_pushed(
    vars: Seq<Variable>,
    clauses: Seq<Clause>,
    clause: Clause,
    trail: Seq<VariableId>,
    place: Seq<int>,
)
    requires
        reasons_ok(vars, clauses, trail, place),
    ensures
        reasons_ok(vars, clauses.push(clause), trail, place),
{
    let after = clauses.push(clause);
    assert forall|i: int| 0 <= i < trail.len() implies #[trigger] reason_ok(
        vars,
        after,
        trail,
        place,
        trail[i].0 as int,
    ) by {
        let v = trail[i].0 as int;
        assert(reason_ok(vars, clauses, trail, place, trail[i].0 as int));
        if vars[v].ante != usize::MAX {
            assert(after[vars[v].ante as int] == clauses[vars[v].ante as int]);
        }
    }
}

impl<T> Problem<T> {
    /// What stays while a learned clause is taken in: names, counters, the
    /// clauses that were there, and which variables are fixed at depth 0.
    pub open(crate) spec fn learned_from(&self, before: &Problem<T>) -> bool {
        &&& self.variable_names == before.variable_names
        &&& self.irreducible == before.irreducible
        &&& self.num_conflicts == before.num_conflicts
        &&& self.gc_count == before.gc_count
        &&& self.alpha == before.alpha
        &&& self.last_conflict == before.last_conflict
        &&& self.solution == before.solution
        &&& self.origin == before.origin
        &&& self.base == before.base
        &&& self.variables@.len() == before.variables@.len()
        &&& self.clauses@.len() >= before.clauses@.len()
        &&& forall|c: int|
            0 <= c < before.clauses@.len() ==> (#[trigger] self.clauses@[c]).lits()
                == before.clauses@[c].lits()
        &&& forall|v: int|
            0 <= v < before.variables@.len() && (#[trigger] before.variables@[v]).assigned()
                && before.variables@[v].depth.0 == 0 ==> self.variables@[v].assigned()
                && self.variables@[v].depth.0 == 0 && self.variables@[v].value
                == before.variables@[v].value
    }

    /// Takes in what a conflict has taught.
    ///
    /// A single literal is a fact: the search starts again from depth 0,
    /// where the literal is set and what follows from it is worked out; the
    /// variables that are assigned then stay so for good and leave the trail.
    /// Several literals make a clause: the search jumps back to the second
    /// largest depth among them, where the clause is unit, sets the literal
    /// of the largest depth with the clause as its reason and works out what
    /// follows. Returns the clause that what follows has falsified, if one.
    pub(crate) fn propagate_learned(&mut self, lits: Vec<Literal>) -> (conflict: Option<usize>)
        requires
            old(self).inv(),
            old(self).depth.0 >= 1,
            old(self).learned(lits@),
            forall|bin: int| old(self).conflict_lens.count(bin) < old(self).num_conflicts,
        ensures
            final(self).ready(),
            old(self).sound() && old(self).follows(lits@) ==> final(self).sound(),
            old(self).troubled() ==> if conflict.is_some() {
                final(self).troubled()
            } else {
                final(self).calm()
            },
            final(self).learned_from(old(self)),
            match conflict {
                Some(cid) => final(self).conflicting(cid),
                None => true,
            },
            final(self).room() + 1 <= old(self).room(),
            final(self).active_variables <= old(self).active_variables,
    {
        if lits.len() == 1 {
            self.assert_fact(lits)
        } else {
            self.assert_clause(lits)
        }
    }

    /// Takes in a single literal that a conflict has taught: see
    /// `propagate_learned`.
    pub(crate) fn assert_fact(&mut self, lits: Vec<Literal>) -> (conflict: Option<usize>)
        requires
            old(self).inv(),
            old(self).depth.0 >= 1,
            old(self).learned(lits@),
            lits@.len() == 1,
            forall|bin: int| old(self).conflict_lens.count(bin) < old(self).num_conflicts,
        ensures
            final(self).ready(),
            old(self).sound() && old(self).follows(lits@) ==> final(self).sound(),
            old(self).troubled() ==> if conflict.is_some() {
                final(self).troubled()
            } else {
                final(self).calm()
            },
            final(self).learned_from(old(self)),
            match conflict {
                Some(cid) => final(self).conflicting(cid),
                None => true,
            },
            final(self).room() + 1 <= old(self).room(),
            final(self).active_variables <= old(self).active_variables,
    {
        proof {
            lemma_count_bound(self.variables@);
            lemma_depth_bound(self.variables@, self.applications@, self.place@, self.levels@, self.depth.0);
        }
        let ghost uip = choose|u: int| 0 <= u < lits@.len() && #[trigger] self.learning(lits@, u as usize);
        {
            let lit = lits[0];
            let x = lit.id().to_usize();
            proof {
                assert(lits@[0].var() == x);
                assert(on_trail(self.applications@, self.place@, x as int));
            }
            self.restart();
            self.conflict_lens.add(0);
            let ghost vars1 = self.variables@;
            let ghost before = *self;
            self.variables[x].set(!lit.negated(), self.depth, usize::MAX);
            self.applications.push(lit.id());
            proof {
                let vars2 = self.variables@;
                assert(vars2 =~= vars1.update(x as int, vars2[x as int]));
                assert(lit.spec_id() == VariableId(x));
                lemma_trail_extended(
                    vars1,
                    vars2,
                    before.applications@,
                    before.place@,
                    self.levels@,
                    self.depth.0,
                    x as int,
                );
                self.place = Ghost(before.place@.update(x as int, before.applications@.len() as int));
                lemma_count_update(vars1, x as int, vars2[x as int]);
                assert forall|u: int| 0 <= u < vars1.len() implies (#[trigger] vars2[u]).same_watchlists(
                    &vars1[u],
                ) by {
                }
                lemma_watch_ok_same_lists(vars1, vars2, self.clauses@);
                assert(self.applications@ =~= before.applications@.push(VariableId(x)));
                assert(reason_ok(vars2, self.clauses@, self.applications@, self.place@, x as int));
                assert forall|c: int| 0 <= c < self.clauses@.len() implies lits_in_range(
                    (#[trigger] self.clauses@[c]).lits(),
                    vars1.len(),
                ) by {
                    assert(self.clauses@[c].wf(vars1.len()));
                }
                lemma_reasons_extended(vars1, vars2, self.clauses@, before.applications@, before.place@, x as int);
                assert forall|v: int| 0 <= v < vars2.len() implies (#[trigger] vars2[v]).q <= Q_ONE by {
                    if v != x {
                        assert(vars2[v] == vars1[v]);
                    }
                }
                assert(self.inv());
                if old(self).sound() && old(self).follows(lits@) {
                    assert forall|m: Seq<bool>|
                        m.len() == vars1.len() && #[trigger] formula_holds(m, self.origin@) implies m[x as int]
                        == vars2[x as int].value by {
                        assert(clause_holds(m, lits@));
                        let k = choose|k: int| 0 <= k < lits@.len() && lit_holds(m, #[trigger] lits@[k]);
                        assert(k == 0);
                    }
                    lemma_fixed_entailed_more(self.origin@, vars1, vars2, x as int);
                }
                if old(self).troubled() {
                    assert forall|c: int| 0 <= c < self.clauses@.len() implies (#[trigger] self.clauses@[c]).wf(
                        vars1.len(),
                    ) by {
                    }
                    assert(self.clauses.len() == self.clauses@.len());
                    lemma_quiet_assigned(
                        vars1,
                        vars2,
                        self.clauses@,
                        before.applications@,
                        before.place@,
                        x as int,
                        0,
                    );
                }
            }
            let ghost mid = *self;
            let conflict = self.propagate();
            proof {
                lemma_count_bound(self.variables@);
            }
            self.active_variables = self.active_variables - self.applications.len();
            self.applications.clear();
            proof {
                lemma_count_bound(old(self).variables@);
                lemma_room_reset(
                    old(self).levels@,
                    old(self).applications@.len() as int,
                    old(self).active_variables as int,
                    self.active_variables as int,
                );
                lemma_phi_empty(self.levels@, self.active_variables as int);
                let vars = self.variables@;
                assert forall|v: int| 0 <= v < vars.len() && (#[trigger] vars[v]).assigned() implies vars[v].depth.0
                    <= 0 && (on_trail(self.applications@, self.place@, v) || vars[v].depth.0 == 0) by {
                }
                assert(self.learned_from(old(self))) by {
                    assert forall|c: int| 0 <= c < old(self).clauses@.len() implies (#[trigger] self.clauses@[c]).lits()
                        == old(self).clauses@[c].lits() by {
                        assert(self.clauses@[c].lits() == mid.clauses@[c].lits());
                    }
                    assert forall|v: int|
                        0 <= v < old(self).variables@.len() && (#[trigger] old(self).variables@[v]).assigned() && old(self).variables@[v].depth.0
                            == 0 implies vars[v].assigned() && vars[v].depth.0 == 0 && vars[v].value
                        == old(self).variables@[v].value by {
                        // A variable fixed at depth 0 was not on the trail.
                        let v0 = old(self).variables@;
                        if on_trail(old(self).applications@, old(self).place@, v) {
                            assert(entry_ok(
                                v0,
                                old(self).applications@,
                                old(self).levels@,
                                old(self).place@[v],
                            ));
                        }
                        assert(vars1[v] == v0[v]);
                        assert(v != x);
                        assert(mid.variables@[v] == vars1[v]);
                        assert(vars[v].same_state(&mid.variables@[v]));
                    }
                }
            }
            conflict
        }
    }

    /// Takes in a clause of several literals that a conflict has taught: see
    /// `propagate_learned`.
    #[verifier::rlimit(80)]
    pub(crate) fn assert_clause(&mut self, lits: Vec<Literal>) -> (conflict: Option<usize>)
        requires
            old(self).inv(),
            old(self).depth.0 >= 1,
            old(self).learned(lits@),
            lits@.len() != 1,
            forall|bin: int| old(self).conflict_lens.count(bin) < old(self).num_conflicts,
        ensures
            final(self).ready(),
            old(self).sound() && old(self).follows(lits@) ==> final(self).sound(),
            old(self).troubled() ==> if conflict.is_some() {
                final(self).troubled()
            } else {
                final(self).calm()
            },
            final(self).learned_from(old(self)),
            match conflict {
                Some(cid) => final(self).conflicting(cid),
                None => true,
            },
            final(self).room() + 1 <= old(self).room(),
            final(self).active_variables <= old(self).active_variables,
    {
        proof {
            lemma_count_bound(self.variables@);
            lemma_depth_bound(self.variables@, self.applications@, self.place@, self.levels@, self.depth.0);
        }
        let ghost uip = choose|u: int| 0 <= u < lits@.len() && #[trigger] self.learning(lits@, u as usize);
        proof {
            assert(lits.len() == lits@.len());
            assert(self.variables@[lits@[uip].var()].depth.0 == self.depth.0);
        }
        {
            let ghost vars0 = self.variables@;
            let ghost trail0 = self.applications@;
            let ghost place0 = self.place@;
            let ghost levels0 = self.levels@;
            let ghost clauses0 = self.clauses@;
            let ghost deep = self.depth.0;
            proof {
                assert forall|k: int| 0 <= k < lits@.len() implies (#[trigger] lits@[k]).var()
                    < vars0.len() && lit_depth(vars0, lits@[k]) <= self.depth.0 by {
                }
            }
            let (backtrack, lit, clause) = Clause::from_learned(lits, &self.variables, self.depth);
            let x = lit.id().to_usize();
            let ghost learned = clause.lits();
            proof {
                crate::cnf::clause::lemma_same_literals(lits@, learned);
                crate::cnf::clause::lemma_rearranged_distinct(lits@, learned);
                assert forall|k: int| 0 <= k < learned.len() implies {
                    &&& (#[trigger] learned[k]).var() < vars0.len()
                    &&& lit_false(vars0, learned[k])
                    &&& 1 <= vars0[learned[k].var()].depth.0 <= deep
                } by {
                    assert(lits@.contains(learned[k]));
                    let w = choose|w: int| 0 <= w < lits@.len() && lits@[w] == learned[k];
                    assert(lits@[w].var() < vars0.len());
                }
                // The first watched literal is the one at the current depth.
                assert(learned.contains(lits@[uip]));
                let at = choose|at: int| 0 <= at < learned.len() && learned[at] == lits@[uip];
                assert(lit_depth(vars0, learned[at]) == deep);
                assert(lit_depth(vars0, learned[clause.w0()]) == deep);
                assert forall|k: int| 0 <= k < learned.len() && k != clause.w0() implies lit_depth(
                    vars0,
                    #[trigger] learned[k],
                ) < deep by {
                    assert(lits@.contains(learned[k]));
                    let w = choose|w: int| 0 <= w < lits@.len() && lits@[w] == learned[k];
                    let w0 = choose|w0: int| 0 <= w0 < lits@.len() && lits@[w0] == learned[clause.w0()];
                    assert(lits@.contains(learned[clause.w0()]));
                    if w == w0 {
                        if k < clause.w0() {
                            assert(learned[k].var() != learned[clause.w0()].var());
                        } else {
                            assert(learned[clause.w0()].var() != learned[k].var());
                        }
                    }
                    assert(w0 == uip) by {
                        if w0 != uip {
                            assert(vars0[lits@[w0].var()].depth.0 == deep <==> w0 == uip);
                        }
                    }
                }
                let other = if clause.w0() == 0 { 1int } else { 0int };
                assert(lit_depth(vars0, learned[other]) >= 1);
                assert(backtrack.0 >= 1);
                assert(clause.wf(vars0.len()));
                assert(self.clauses.len() == clauses0.len());
            }
            self.depth = backtrack;
            self.clauses.push(clause);
            self.backjump();
            let cid = self.clauses.len() - 1;
            let ghost vars1 = self.variables@;
            let ghost trail1 = self.applications@;
            let ghost levels1 = self.levels@;
            let ghost clauses1 = self.clauses@;
            proof {
                assert(clauses1 =~= clauses0.push(clause));
                assert forall|u: int| 0 <= u < vars0.len() implies (#[trigger] vars1[u]).same_watchlists(
                    &vars0[u],
                ) by {
                }
                lemma_watch_ok_same_lists(vars0, vars1, clauses0);
                lemma_watch_pushed(vars1, clauses0, clause);
                assert forall|c: int| 0 <= c < clauses0.len() implies lits_in_range(
                    (#[trigger] clauses0[c]).lits(),
                    vars0.len(),
                ) by {
                    assert(clauses0[c].wf(vars0.len()));
                }
                lemma_reasons_unwound(vars0, vars1, clauses0, trail0, place0, levels0, trail1.len() as int);
                lemma_reasons_pushed(vars1, clauses0, clause, trail1, place0);
                // The literal of the largest depth is open again; the others are as they were.
                assert(on_trail(trail0, place0, x as int));
                assert(entry_ok(vars0, trail0, levels0, place0[x as int]));
                assert(backtrack.0 < deep);
                assert(levels0[backtrack.0 as int] <= levels0[deep - 1]) by {
                    if backtrack.0 < deep - 1 {
                    }
                }
                assert(!vars1[x as int].assigned());
                assert forall|k: int| 0 <= k < learned.len() && k != clause.w0() implies vars1[(
                #[trigger] learned[k]).var()] == vars0[learned[k].var()] by {
                    let u = learned[k].var();
                    assert(lit_depth(vars0, learned[k]) <= backtrack.0);
                    if on_trail(trail0, place0, u) {
                        assert(entry_ok(vars0, trail0, levels0, place0[u]));
                        let d = vars0[u].depth.0 as int;
                        if d < backtrack.0 {
                            assert(levels0[d] < levels0[backtrack.0 as int]);
                        }
                    }
                }
                assert forall|v: int| 0 <= v < vars1.len() implies (#[trigger] vars1[v]).q <= Q_ONE by {
                    assert(vars1[v].q == vars0[v].q);
                }
            }
            self.conflict_lens.add(self.clauses[cid].len() - 1);
            self.clauses[cid].notify_watched(cid, &mut self.variables);
            let ghost vars2 = self.variables@;
            proof {
                assert(clauses1 =~= clauses1.update(cid as int, clauses1[cid as int]));
                assert(vars2[x as int].same_state(&vars1[x as int]));
                lemma_watch_after_apply(vars1, vars2, clauses1, clauses1, cid);
                assert forall|v: int| 0 <= v < vars1.len() implies (#[trigger] vars2[v]).value
                    == vars1[v].value && vars2[v].depth == vars1[v].depth && vars2[v].ante
                    == vars1[v].ante by {
                    assert(vars2[v].same_state(&vars1[v]));
                }
                assert forall|c: int| 0 <= c < clauses1.len() implies lits_in_range(
                    (#[trigger] clauses1[c]).lits(),
                    vars1.len(),
                ) by {
                    assert(clauses1[c].wf(vars1.len()));
                }
                lemma_same_values_inv(vars1, vars2, clauses1, trail1, place0, levels1, self.depth.0);
            }
            let ghost before = *self;
            self.variables[x].set(!lit.negated(), self.depth, cid);
            self.applications.push(lit.id());
            proof {
                let vars3 = self.variables@;
                assert(vars3 =~= vars2.update(x as int, vars3[x as int]));
                assert(lit.spec_id() == VariableId(x));
                lemma_trail_extended(vars2, vars3, trail1, place0, levels1, self.depth.0, x as int);
                self.place = Ghost(place0.update(x as int, trail1.len() as int));
                lemma_count_update(vars2, x as int, vars3[x as int]);
                assert forall|u: int| 0 <= u < vars2.len() implies (#[trigger] vars3[u]).same_watchlists(
                    &vars2[u],
                ) by {
                }
                lemma_watch_ok_same_lists(vars2, vars3, clauses1);
                let trail2 = self.applications@;
                let place2 = self.place@;
                assert(trail2 =~= trail1.push(VariableId(x)));
                assert(lit_true(vars3, learned[clause.w0()]));
                assert forall|j: int| 0 <= j < learned.len() && (#[trigger] learned[j]).var()
                    != x implies lit_false(vars3, learned[j]) && (on_trail(
                    trail2,
                    place2,
                    learned[j].var(),
                ) ==> place2[learned[j].var()] < place2[x as int]) by {
                    let u = learned[j].var();
                    assert(j != clause.w0());
                    assert(lits@.contains(learned[j]));
                    assert(vars1[u] == vars0[u]);
                    assert(vars2[u].same_state(&vars1[u]));
                    assert(vars3[u] == vars2[u]);
                    let w = choose|w: int| 0 <= w < lits@.len() && lits@[w] == learned[j];
                    assert(lit_false(vars0, lits@[w]));
                    if on_trail(trail2, place2, u) {
                        if place2[u] == trail1.len() {
                            assert(trail2[place2[u]].0 == x);
                        }
                    }
                }
                assert(implied_by(vars3, trail2, place2, clauses1[cid as int].lits(), x as int));
                assert(reason_ok(vars3, clauses1, trail2, place2, x as int));
                lemma_reasons_extended(vars2, vars3, clauses1, trail1, place0, x as int);
                assert forall|v: int| 0 <= v < vars3.len() implies (#[trigger] vars3[v]).q <= Q_ONE by {
                    if v != x {
                        assert(vars3[v] == vars2[v]);
                    }
                    assert(vars2[v].same_state(&vars1[v]));
                }
                assert(self.inv());
                if old(self).sound() && old(self).follows(lits@) {
                    assert forall|v: int|
                        0 <= v < vars3.len() && (#[trigger] vars3[v]).assigned() && vars3[v].depth.0
                            == 0 implies vars0[v].assigned() && vars0[v].depth.0 == 0 && vars0[v].value
                        == vars3[v].value by {
                        assert(v != x);
                        assert(vars3[v] == vars2[v]);
                        assert(vars2[v].same_state(&vars1[v]));
                        if !(vars1[v] == vars0[v]) {
                            assert(!vars1[v].assigned());
                        }
                    }
                    lemma_fixed_entailed_kept(self.origin@, vars0, vars3);
                    assert(entails(self.origin@, vars0.len(), learned)) by {
                        assert forall|m: Seq<bool>|
                            m.len() == vars0.len() && #[trigger] formula_holds(
                                m,
                                self.origin@,
                            ) implies clause_holds(m, learned) by {
                            assert(clause_holds(m, lits@));
                            crate::cnf::logic::lemma_same_set_holds(m, lits@, learned);
                        }
                    }
                    assert(all_entailed(self.origin@, vars3.len(), clauses1)) by {
                        assert forall|c: int| 0 <= c < clauses1.len() implies entails(
                            self.origin@,
                            vars3.len(),
                            (#[trigger] clauses1[c]).lits(),
                        ) by {
                            if c < clauses0.len() {
                                assert(clauses1[c] == clauses0[c]);
                                assert(entails(self.origin@, vars0.len(), clauses0[c].lits()));
                            }
                        }
                    }
                }
            }
            proof {
                if old(self).troubled() {
                    let vars3 = self.variables@;
                    assert forall|c: int| 0 <= c < clauses0.len() implies (#[trigger] clauses0[c]).wf(
                        vars0.len(),
                    ) by {
                    }
                    lemma_unwound_quiet(
                        vars0,
                        vars1,
                        clauses0,
                        trail0,
                        place0,
                        levels0,
                        deep,
                        backtrack.0 as int,
                        trail1.len() as int,
                    );
                    lemma_quiet_same(vars1, vars2, clauses0, clauses0, cid as int);
                    assert(quiet(vars2, clauses0)) by {
                        assert forall|c: int| 0 <= c < clauses0.len() implies #[trigger] quiet_at(
                            vars2,
                            clauses0,
                            c,
                        ) by {
                        }
                    }
                    lemma_quiet_assigned(vars2, vars3, clauses0, trail1, place0, x as int, self.depth.0);
                    let trail2 = self.applications@;
                    let place2 = self.place@;
                    let none = Set::<usize>::empty();
                    assert forall|c: int| 0 <= c < clauses1.len() implies #[trigger] flowing_at(
                        vars3,
                        clauses1,
                        trail2,
                        place2,
                        trail1.len() as int,
                        none,
                        c,
                    ) by {
                        if c < clauses0.len() {
                            assert(clauses1[c] == clauses0[c]);
                            assert(flowing_at(vars3, clauses0, trail2, place2, trail1.len() as int, none, c));
                        } else {
                            let added = clauses1[c];
                            assert(added.lits() == learned);
                            crate::cnf::problem::guard::lemma_assigned_clause(
                                vars2,
                                vars3,
                                added,
                                cid,
                                x as int,
                                self.depth.0,
                            );
                            assert(added.linked(cid, vars2));
                            assert(lit_true(vars3, learned[added.w0()]));
                            assert(vars3[learned[added.w1()].var()] == vars2[learned[added.w1()].var()]);
                            assert(vars2[learned[added.w1()].var()].same_state(
                                &vars1[learned[added.w1()].var()],
                            ));
                            assert(lit_depth(vars3, learned[added.w1()]) == backtrack.0);
                            assert(added.guarded(vars3));
                            assert(added.anchored(vars3));
                        }
                    }
                }
            }
            let ghost mid = *self;
            let conflict = self.propagate();
            proof {
                let a = self.active_variables as int;
                lemma_count_bound(self.variables@);
                assert(levels1 == levels0.take(backtrack.0 as int));
                assert(trail1.len() == levels0[backtrack.0 as int]);
                lemma_phi_jumped(levels0, trail0.len() as int, a, backtrack.0 as int);
                lemma_phi_grows(levels1, trail1.len() as int + 1, self.applications@.len() as int, a);
                assert(self.learned_from(old(self))) by {
                    assert forall|c: int| 0 <= c < old(self).clauses@.len() implies (#[trigger] self.clauses@[c]).lits()
                        == old(self).clauses@[c].lits() by {
                        assert(self.clauses@[c].lits() == mid.clauses@[c].lits());
                        assert(mid.clauses@[c] == clauses0[c]);
                    }
                    assert forall|v: int|
                        0 <= v < vars0.len() && (#[trigger] vars0[v]).assigned() && vars0[v].depth.0
                            == 0 implies self.variables@[v].assigned() && self.variables@[v].depth.0 == 0
                        && self.variables@[v].value == vars0[v].value by {
                        if on_trail(trail0, place0, v) {
                            assert(entry_ok(vars0, trail0, levels0, place0[v]));
                        }
                        assert(vars1[v] == vars0[v]);
                        assert(vars2[v].same_state(&vars1[v]));
                        assert(v != x);
                        assert(mid.variables@[v] == vars2[v]);
                        assert(self.variables@[v].same_state(&mid.variables@[v]));
                    }
                }
            }
            conflict
        }
    }
}

/// `after` is `before` with the clauses from `from` on brought into ascending
/// order of glue, clauses of equal glue staying in the order they had: `to`
/// tells for each new position behind `from` the old one, `back` for each old
/// position the new one.
pub open(crate) spec fn stably_sorted(
    before: Seq<Clause>,
    after: Seq<Clause>,
    from: int,
    to: Seq<int>,
    back: Seq<int>,
) -> bool {
    let m = before.len() - from;
    &&& after.len() == before.len()
    &&& to.len() == m
    &&& back.len() == m
    &&& forall|i: int| 0 <= i < from ==> #[trigger] after[i] == before[i]
    &&& forall|i: int|
        0 <= i < m ==> 0 <= #[trigger] to[i] < m && back[to[i]] == i && after[from + i] == before[from
            + to[i]]
    &&& forall|j: int| 0 <= j < m ==> 0 <= #[trigger] back[j] < m && to[back[j]] == j
    &&& forall|i: int, j: int|
        0 <= i < j < m ==> after[from + i].glue.0 <= after[from + j].glue.0 && (after[from
            + i].glue.0 == after[from + j].glue.0 ==> #[trigger] to[i] < #[trigger] to[j])
}

/// Sorts the clauses from `from` on by their glue, with the slice method
/// `sort_by_key` of the standard library. The contract claims what the method
/// documents: afterwards the same clauses stand in ascending order of the
/// key, and clauses with one key stand in the order they had.
#[verifier::external_body]
pub(crate) fn sort_by_glue(clauses: &mut Vec<Clause>, from: usize)
    requires
        from <= old(clauses)@.len(),
    ensures
        exists|to: Seq<int>, back: Seq<int>|
            #[trigger] stably_sorted(old(clauses)@, final(clauses)@, from as int, to, back),
{
    clauses[from..].sort_by_key(|clause| clause.glue.0);
}

/// Forgets the worse half of the learned clauses, which are those from
/// `first` on.
///
/// They are brought into the order of their glue, clauses of equal glue
/// staying in the order they had. Those of glue 2 that then come first are
/// kept for good; of the others the second half is dropped. What is returned
/// is the number of clauses that are kept for good from now on: `first` and
/// the clauses of glue 2 that were found.
///
/// So where no learned clause has a glue below 2, every learned clause of
/// glue 2 is kept for good.
pub fn forget_half(clauses: &mut Vec<Clause>, first: usize) -> (kept_for_good: usize)
    requires
        first <= old(clauses)@.len(),
    ensures
        first <= kept_for_good <= final(clauses)@.len() <= old(clauses)@.len(),
        final(clauses)@.len() - kept_for_good == (old(clauses)@.len() - kept_for_good + 1) / 2,
        exists|sorted: Seq<Clause>, to: Seq<int>, back: Seq<int>|
            #![trigger stably_sorted(old(clauses)@, sorted, first as int, to, back)]
            stably_sorted(old(clauses)@, sorted, first as int, to, back) && final(clauses)@ == sorted.take(
                final(clauses)@.len() as int,
            ) && (kept_for_good < sorted.len() ==> sorted[kept_for_good as int].spec_glue().spec_to_usize() != 2),
        forall|c: int| 0 <= c < first ==> #[trigger] final(clauses)@[c] == old(clauses)@[c],
        forall|c: int|
            first <= c < kept_for_good ==> (#[trigger] final(clauses)@[c]).spec_glue().spec_to_usize() == 2,
        forall|c: int|
            0 <= c < final(clauses)@.len() ==> old(clauses)@.contains(#[trigger] final(clauses)@[c]),
        (forall|c: int|
            first <= c < old(clauses)@.len() ==> (#[trigger] old(clauses)@[c]).spec_glue().spec_to_usize() >= 2)
            ==> forall|c: int|
            first <= c < old(clauses)@.len() && (#[trigger] old(clauses)@[c]).spec_glue().spec_to_usize() <= 2
                ==> exists|k: int| 0 <= k < kept_for_good && #[trigger] final(clauses)@[k] == old(clauses)@[c],
{
    let ghost clauses0 = clauses@;
    sort_by_glue(clauses, first);
    let ghost sorted = clauses@;
    let ghost (to, back) = choose|to: Seq<int>, back: Seq<int>| #[trigger]
        stably_sorted(clauses0, sorted, first as int, to, back);
    proof {
        assert forall|c: int| 0 <= c < sorted.len() implies clauses0.contains(#[trigger] sorted[c]) by {
            if c < first {
                assert(sorted[c] == clauses0[c]);
            } else {
                assert(0 <= to[c - first] < clauses0.len() - first);
                assert(sorted[first + (c - first)] == clauses0[first + to[c - first]]);
            }
        }
    }
    let mut k: usize = first;
    while k < clauses.len() && clauses[k].get_glue().to_usize() == 2
        invariant
            first <= k <= sorted.len(),
            clauses@ == sorted,
            forall|c: int| first <= c < k ==> (#[trigger] sorted[c]).glue.0 == 2,
        decreases sorted.len() - k,
    {
        k += 1;
    }
    let keep: usize = clauses.len() - (clauses.len() - k) / 2;
    clauses.truncate(keep);
    let ghost kept = clauses@;
    proof {
        assert(kept =~= sorted.take(keep as int));
        assert forall|c: int| 0 <= c < kept.len() implies clauses0.contains(#[trigger] kept[c]) by {
            assert(kept[c] == sorted[c]);
            assert(clauses0.contains(sorted[c]));
        }
        assert forall|c: int| 0 <= c < first implies #[trigger] kept[c] == clauses0[c] by {
            assert(kept[c] == sorted[c]);
        }
        assert forall|c: int| first <= c < k implies (#[trigger] kept[c]).spec_glue().spec_to_usize() == 2 by {
            assert(kept[c] == sorted[c]);
        }
        if forall|c: int|
            first <= c < clauses0.len() ==> (#[trigger] clauses0[c]).spec_glue().spec_to_usize() >= 2 {
            assert forall|c: int|
                first <= c < clauses0.len() && (#[trigger] clauses0[c]).spec_glue().spec_to_usize()
                    <= 2 implies exists|j: int| 0 <= j < k && #[trigger] kept[j] == clauses0[c] by {
                let j = first + back[c - first];
                assert(to[back[c - first]] == c - first);
                assert(sorted[first + back[c - first]] == clauses0[first + to[back[c - first]]]);
                assert(sorted[j] == clauses0[c]);
                if j >= k {
                    // The clause at `k` ended the count, so its glue is not 2;
                    // it is below the glue of the clause at `j`, which is 2.
                    assert(k < sorted.len());
                    assert(sorted[k as int].glue.0 != 2);
                    assert(0 <= to[k - first] < clauses0.len() - first);
                    assert(sorted[first + (k - first)] == clauses0[first + to[k - first]]);
                    assert(clauses0[first + to[k - first]].spec_glue().spec_to_usize() >= 2);
                    if k < j {
                        assert(sorted[first + (k - first)].glue.0 <= sorted[first + (j - first)].glue.0);
                    }
                    assert(false);
                }
                assert(kept[j] == sorted[j]);
            }
        }
        assert(stably_sorted(clauses0, sorted, first as int, to, back));
    }
    k
}

impl<T> Problem<T> {
    /// What stays when the clauses are reduced: the values, the counters of
    /// conflicts, and all that does not belong to the search proper.
    pub open(crate) spec fn reduced_from(&self, before: &Problem<T>) -> bool {
        &&& self.variable_names == before.variable_names
        &&& self.num_conflicts == before.num_conflicts
        &&& self.alpha == before.alpha
        &&& self.last_conflict == before.last_conflict
        &&& self.conflict_lens == before.conflict_lens
        &&& self.active_variables == before.active_variables
        &&& self.solution == before.solution
        &&& self.origin == before.origin
        &&& self.base == before.base
        &&& self.plays == before.plays
        &&& self.applications == before.applications
        &&& self.depth == before.depth
        &&& self.variables@.len() == before.variables@.len()
        &&& forall|v: int|
            0 <= v < self.variables@.len() ==> (#[trigger] self.variables@[v]).same_state(
                &before.variables@[v],
            )
    }

    /// Forgets the worse half of the learned clauses.
    ///
    /// The learned clauses are sorted by glue. Those with glue 2 that come
    /// first are kept for good: they join the clauses that are never
    /// forgotten. Of the others the second half is dropped. All watch lists
    /// are emptied first and filled again from the clauses that are left.
    #[verifier::rlimit(60)]
    pub(crate) fn delete_clauses(&mut self)
        requires
            old(self).ready(),
            old(self).depth.0 == 0,
            old(self).gc_count < old(self).num_conflicts,
        ensures
            final(self).ready(),
            old(self).sound() ==> final(self).sound(),
            old(self).calm() ==> final(self).calm(),
            final(self).reduced_from(old(self)),
            final(self).gc_count == old(self).gc_count + 1,
            old(self).irreducible <= final(self).irreducible <= final(self).clauses@.len(),
            final(self).clauses@.len() <= old(self).clauses@.len(),
            final(self).clauses@.len() - final(self).irreducible == (old(self).clauses@.len()
                - final(self).irreducible + 1) / 2,
            forall|c: int|
                0 <= c < old(self).irreducible ==> #[trigger] final(self).clauses@[c] == old(self).clauses@[c],
            forall|c: int|
                0 <= c < final(self).clauses@.len() ==> old(self).clauses@.contains(
                    #[trigger] final(self).clauses@[c],
                ),
            exists|sorted: Seq<Clause>, to: Seq<int>, back: Seq<int>|
                #![trigger stably_sorted(old(self).clauses@, sorted, old(self).irreducible as int, to, back)]
                stably_sorted(old(self).clauses@, sorted, old(self).irreducible as int, to, back) && final(self).clauses@ == sorted.take(final(self).clauses@.len() as int),
            forall|c: int|
                old(self).irreducible <= c < final(self).irreducible ==> (#[trigger] final(self).clauses@[c]).glue.0
                    == 2,
            (forall|c: int|
                old(self).irreducible <= c < old(self).clauses@.len() ==> (#[trigger] old(self).clauses@[c]).glue.0 >= 2) ==> forall|c: int|
                old(self).irreducible <= c < old(self).clauses@.len() && (#[trigger] old(self).clauses@[c]).glue.0 <= 2 ==> exists|k: int|
                    0 <= k < final(self).irreducible && #[trigger] final(self).clauses@[k] == old(self).clauses@[c],
    {
        let ghost vars0 = self.variables@;
        let ghost clauses0 = self.clauses@;
        let ghost first = self.irreducible as int;
        self.gc_count += 1;
        let mut v: usize = 0;
        while v < self.variables.len()
            invariant
                v <= self.variables@.len(),
                self.variables@.len() == vars0.len(),
                forall|u: int, n: bool| 0 <= u < v ==> (#[trigger] self.variables@[u].watchlist(n)).len() == 0,
                forall|u: int| 0 <= u < vars0.len() ==> (#[trigger] self.variables@[u]).same_state(&vars0[u]),
                self.clauses == old(self).clauses,
                self.irreducible == old(self).irreducible,
                self.gc_count == old(self).gc_count + 1,
                self.variable_names == old(self).variable_names,
                self.num_conflicts == old(self).num_conflicts,
                self.alpha == old(self).alpha,
                self.last_conflict == old(self).last_conflict,
                self.conflict_lens == old(self).conflict_lens,
                self.active_variables == old(self).active_variables,
                self.solution == old(self).solution,
                self.origin == old(self).origin,
                self.base == old(self).base,
                self.plays == old(self).plays,
                self.applications == old(self).applications,
                self.depth == old(self).depth,
                self.place == old(self).place,
                self.levels == old(self).levels,
            decreases self.variables@.len() - v,
        {
            let ghost vars1 = self.variables@;
            self.variables[v].clear_watched();
            proof {
                assert forall|u: int| 0 <= u < vars0.len() implies (#[trigger] self.variables@[u]).same_state(
                    &vars0[u],
                ) by {
                    if u != v {
                        assert(self.variables@[u] == vars1[u]);
                    }
                    assert(vars1[u].same_state(&vars0[u]));
                }
                assert forall|u: int, n: bool| 0 <= u < v + 1 implies (#[trigger] self.variables@[u].watchlist(
                    n,
                )).len() == 0 by {
                    if u != v {
                        assert(self.variables@[u] == vars1[u]);
                        assert(vars1[u].watchlist(n).len() == 0);
                    }
                }
            }
            v += 1;
        }
        let k = forget_half(&mut self.clauses, self.irreducible);
        self.irreducible = k;
        let ghost kept = self.clauses@;
        proof {
            assert(kept.len() == self.clauses.len());
            if forall|c: int| first <= c < clauses0.len() ==> (#[trigger] clauses0[c]).glue.0 >= 2 {
                assert forall|c: int|
                    first <= c < clauses0.len() implies (#[trigger] clauses0[c]).spec_glue().spec_to_usize()
                    >= 2 by {
                    assert(clauses0[c].glue.0 >= 2);
                }
                assert forall|c: int|
                    first <= c < clauses0.len() && (#[trigger] clauses0[c]).glue.0 <= 2 implies exists|j: int|
                    0 <= j < k && #[trigger] kept[j] == clauses0[c] by {
                    assert(clauses0[c].spec_glue().spec_to_usize() <= 2);
                }
            }
        }
        let ghost vars2 = self.variables@;
        proof {
            assert forall|x: usize, u: int, n: bool| 0 <= u < vars2.len() implies !#[trigger] holds(
                vars2,
                x,
                u,
                n,
            ) by {
                assert(vars2[u].watchlist(n).len() == 0);
            }
            assert(watch_ok(vars2, kept.take(0))) by {
                assert forall|u: int, n: bool| 0 <= u < vars2.len() implies (#[trigger] vars2[u].watchlist(
                    n,
                )).no_duplicates() by {
                    assert(vars2[u].watchlist(n).len() == 0);
                }
            }
            assert forall|c: int| 0 <= c < kept.len() implies (#[trigger] kept[c]).wf(vars2.len()) by {
                assert(clauses0.contains(kept[c]));
                let w = choose|w: int| 0 <= w < clauses0.len() && clauses0[w] == kept[c];
                assert(clauses0[w].wf(vars0.len()));
            }
        }
        let ghost tracking = old(self).calm();
        proof {
            if tracking {
                assert forall|c: int| 0 <= c < kept.len() implies (#[trigger] kept[c]).guarded(vars0)
                    && kept[c].anchored(vars0) by {
                    assert(clauses0.contains(kept[c]));
                    let w = choose|w: int| 0 <= w < clauses0.len() && clauses0[w] == kept[c];
                    assert(quiet_at(vars0, clauses0, w));
                }
            }
        }
        let mut cid: usize = 0;
        while cid < self.clauses.len()
            invariant
                cid <= kept.len(),
                self.clauses@ == kept,
                kept.len() <= usize::MAX,
                self.variables@.len() == vars0.len(),
                tracking ==> forall|c: int|
                    0 <= c < kept.len() ==> (#[trigger] kept[c]).guarded(vars0) && kept[c].anchored(
                        vars0,
                    ),
                tracking ==> forall|c: int|
                    0 <= c < cid ==> #[trigger] quiet_at(self.variables@, kept, c),
                watch_ok(self.variables@, kept.take(cid as int)),
                forall|c: int| 0 <= c < kept.len() ==> (#[trigger] kept[c]).wf(vars0.len()),
                forall|u: int| 0 <= u < vars0.len() ==> (#[trigger] self.variables@[u]).same_state(&vars0[u]),
                self.irreducible == k,
                self.gc_count == old(self).gc_count + 1,
                self.variable_names == old(self).variable_names,
                self.num_conflicts == old(self).num_conflicts,
                self.alpha == old(self).alpha,
                self.last_conflict == old(self).last_conflict,
                self.conflict_lens == old(self).conflict_lens,
                self.active_variables == old(self).active_variables,
                self.solution == old(self).solution,
                self.origin == old(self).origin,
                self.base == old(self).base,
                self.plays == old(self).plays,
                self.applications == old(self).applications,
                self.depth == old(self).depth,
                self.place == old(self).place,
                self.levels == old(self).levels,
            decreases kept.len() - cid,
        {
            let ghost vars3 = self.variables@;
            proof {
                lemma_watch_pushed(vars3, kept.take(cid as int), kept[cid as int]);
                assert(kept.take(cid as int).push(kept[cid as int]) =~= kept.take(cid + 1));
            }
            self.clauses[cid].notify_watched(cid, &mut self.variables);
            proof {
                let vars4 = self.variables@;
                let part = kept.take(cid + 1);
                assert(part =~= part.update(cid as int, part[cid as int]));
                lemma_watch_after_apply(vars3, vars4, part, part, cid);
                assert forall|u: int| 0 <= u < vars0.len() implies (#[trigger] vars4[u]).same_state(
                    &vars0[u],
                ) by {
                    assert(vars4[u].same_state(&vars3[u]));
                    assert(vars3[u].same_state(&vars0[u]));
                }
                if tracking {
                    assert(crate::cnf::valuation::same_assignment(vars3, vars0));
                    assert(crate::cnf::valuation::same_assignment(vars4, vars0));
                    assert forall|c: int| 0 <= c < cid + 1 implies #[trigger] quiet_at(vars4, kept, c) by {
                        let clause = kept[c];
                        let x = c as usize;
                        assert(clause.wf(vars0.len()));
                        crate::cnf::clause::lemma_guarded_same(clause, clause, vars4, vars0);
                        crate::cnf::clause::lemma_anchored_same(clause, clause, vars4, vars0);
                        crate::cnf::clause::lemma_fixed_true_same(clause, clause, vars4, vars0);
                        if c < cid {
                            assert(quiet_at(vars3, kept, c));
                            assert forall|v: int, n: bool| 0 <= v < vars3.len() implies #[trigger] holds(
                                vars3,
                                x,
                                v,
                                n,
                            ) == holds(vars4, x, v, n) by {
                            }
                            lemma_home_same(clause, clause, x, vars3, vars4);
                        } else {
                            // A clause that stays out of the lists holds a literal true at depth 0.
                            assert(vars3[clause.lit0().var()].same_state(&vars0[clause.lit0().var()]));
                        }
                    }
                }
            }
            cid += 1;
        }
        proof {
            assert(kept.take(kept.len() as int) =~= kept);
            let vars = self.variables@;
            assert forall|u: int| 0 <= u < vars0.len() implies (#[trigger] vars[u]).value == vars0[u].value
                && vars[u].depth == vars0[u].depth && vars[u].ante == vars0[u].ante by {
                assert(vars[u].same_state(&vars0[u]));
            }
            assert forall|c: int| 0 <= c < clauses0.len() implies lits_in_range(
                (#[trigger] clauses0[c]).lits(),
                vars0.len(),
            ) by {
                assert(clauses0[c].wf(vars0.len()));
            }
            lemma_same_values_inv(
                vars0,
                vars,
                clauses0,
                self.applications@,
                self.place@,
                self.levels@,
                self.depth.0,
            );
            assert(reasons_ok(vars, kept, self.applications@, self.place@));
            assert forall|u: int| 0 <= u < vars.len() implies (#[trigger] vars[u]).q <= Q_ONE by {
                assert(vars[u].same_state(&vars0[u]));
            }
            if old(self).sound() {
                assert forall|u: int|
                    0 <= u < vars.len() && (#[trigger] vars[u]).assigned() && vars[u].depth.0
                        == 0 implies vars0[u].assigned() && vars0[u].depth.0 == 0 && vars0[u].value
                    == vars[u].value by {
                    assert(vars[u].same_state(&vars0[u]));
                }
                lemma_fixed_entailed_kept(self.origin@, vars0, vars);
                assert forall|c: int| 0 <= c < kept.len() implies entails(
                    self.origin@,
                    vars.len(),
                    (#[trigger] kept[c]).lits(),
                ) by {
                    assert(clauses0.contains(kept[c]));
                    let w = choose|w: int| 0 <= w < clauses0.len() && clauses0[w] == kept[c];
                    assert(entails(self.origin@, vars0.len(), clauses0[w].lits()));
                }
            }
        }
    }

    /// Searches for a model.
    ///
    /// Where making the problem has settled the answer, that answer is given.
    /// Otherwise the search goes on until every variable is assigned without
    /// a clause being falsified (`Sat`), or a clause is falsified at depth 0
    /// (`Unsat`). It decides on a variable, works out what follows, and
    /// learns from each conflict. `Unknown` is the answer only when the
    /// counter of conflicts has run full, and never on a small problem: a
    /// problem of 22 open variables at most gets the answer `Sat` where its
    /// clauses have a model and the answer `Unsat` where they have none. On
    /// every `Sat` each variable has a value.
    pub fn solve(&mut self) -> (verdict: SolverResult)
        requires
            old(self).wf(),
        ensures
            final(self).size() == old(self).size(),
            final(self).names() == old(self).names(),
            final(self).origin() == old(self).origin(),
            final(self).solution() == old(self).solution(),
            old(self).solution() matches Some(known) ==> verdict == known && *final(self) == *old(self),
            verdict == SolverResult::Sat ==> final(self).wf() && final(self).total(),
            verdict == SolverResult::Sat ==> formula_holds(final(self).values(), old(self).origin()),
            verdict == SolverResult::Unsat ==> !satisfiable(old(self).origin(), old(self).size()),
            old(self).solution().is_none() && verdict == SolverResult::Unknown ==> final(self).conflicts() == u64::MAX,
            old(self).small() ==> verdict != SolverResult::Unknown,
            old(self).small() ==> (verdict == SolverResult::Sat <==> satisfiable(old(self).origin(), old(self).size())),
            old(self).size() <= 22 && old(self).conflicts() <= 1_000_000_000_000_000_000 ==> verdict
                != SolverResult::Unknown && (verdict == SolverResult::Sat <==> satisfiable(
                old(self).origin(),
                old(self).size(),
            )),
    {
        if let Some(known) = self.solution {
            proof {
                if known == SolverResult::Sat {
                    assert(self.values().len() == self.variables@.len());
                }
            }
            return known;
        }
        let mut gc_next: u64 = 2047;
        let mut gc_pos: u64 = 0;
        let mut conflict: Option<usize> = None;
        let ghost mut rounds: nat = 0;
        let ghost small = self.small();
        let ghost c0 = self.num_conflicts as int;
        let ghost cap0 = cap(self.active_variables as int);
        let ghost mut past: int = 0;
        proof {
            lemma_count_bound(self.variables@);
            lemma_room_positive(self.levels@, self.applications@.len() as int, self.active_variables as int);
            if small {
                lemma_cap_sure(self.active_variables as int);
            }
        }
        loop
            invariant
                small == old(self).small(),
                old(self).size() <= 22 && old(self).conflicts() <= 1_000_000_000_000_000_000 ==> small,
                small ==> {
                    &&& 1 <= cap0 <= SURE_CAP
                    &&& c0 <= 1_000_000_000_000_000_000
                    &&& self.active_variables <= SURE
                    &&& cap(self.active_variables as int) <= cap0
                    &&& gc_pos + self.room() <= cap0
                    &&& 512 * rounds <= cap0
                    &&& 0 <= past <= rounds * cap0
                    &&& self.num_conflicts - c0 == past + gc_pos
                },
                self.ready(),
                self.sound(),
                self.complete(),
                conflict.is_some() ==> self.troubled(),
                conflict.is_none() ==> self.calm(),
                self.variables@.len() == old(self).variables@.len(),
                self.variable_names == old(self).variable_names,
                self.origin == old(self).origin,
                self.base == old(self).base,
                self.solution == old(self).solution,
                self.solution.is_none(),
                match conflict {
                    Some(cid) => self.conflicting(cid),
                    None => true,
                },
                gc_next == 2047 + 512 * rounds,
                rounds * 2047 + gc_pos <= self.num_conflicts,
                self.gc_count + gc_pos <= self.num_conflicts,
                self.gc_count <= self.num_conflicts,
            decreases
                    u64::MAX - self.num_conflicts,
                    (if gc_pos >= gc_next {
                        1int
                    } else {
                        0int
                    }),
                    self.active_variables - self.applications@.len(),
        {
            let ghost before = *self;
            self.update_q(&conflict);
            proof {
                match conflict {
                    Some(cid) => {
                        self.lemma_conflict_stays(&before, cid);
                    },
                    None => {},
                }
                self.lemma_complete_grown(&before);
                lemma_count_bound(self.variables@);
                lemma_room_positive(self.levels@, self.applications@.len() as int, self.active_variables as int);
                assert(self.room() == before.room());
            }
            match conflict {
                Some(cid) => {
                    if self.depth.to_usize() == 0 {
                        proof {
                            self.lemma_refuted(cid);
                        }
                        return SolverResult::Unsat;
                    }
                    if self.num_conflicts == u64::MAX {
                        proof {
                            if small {
                                assert((rounds + 1) * cap0 <= 91_936_699 * 47_071_589_413) by (nonlinear_arith)
                                    requires
                                        512 * rounds <= cap0,
                                        1 <= cap0 <= 47_071_589_413,
                                ;
                                assert(past + gc_pos <= (rounds + 1) * cap0) by (nonlinear_arith)
                                    requires
                                        past <= rounds * cap0,
                                        gc_pos <= cap0,
                                ;
                                assert(false);
                            }
                        }
                        return SolverResult::Unknown;
                    }
                    if self.alpha > ALPHA_FLOOR {
                        self.alpha -= 1;
                    }
                    gc_pos += 1;
                    self.num_conflicts += 1;
                    proof {
                        assert(self.inv());
                    }
                    let ghost at_conflict = *self;
                    let lits = self.learn(cid);
                    proof {
                        assert forall|bin: int| self.conflict_lens.count(bin) < self.num_conflicts by {
                            assert(before.conflict_lens.count(bin) <= before.num_conflicts);
                        }
                        assert(self.troubled());
                        assert(self.complete());
                    }
                    let ghost learned_at = *self;
                    conflict = self.propagate_learned(lits);
                    proof {
                        self.lemma_complete_grown(&learned_at);
                        lemma_cap(self.active_variables as int, learned_at.active_variables as int);
                    }
                },
                None => {
                    proof {
                        lemma_count_bound(self.variables@);
                    }
                    if self.active_variables == self.applications.len() {
                        proof {
                            lemma_count_zero(self.variables@);
                            self.lemma_model();
                            assert(self.values().len() == self.variables@.len());
                        }
                        return SolverResult::Sat;
                    }
                    if gc_pos >= gc_next {
                        proof {
                            assert(512 * rounds <= self.num_conflicts) by (nonlinear_arith)
                                requires
                                    rounds * 2047 <= self.num_conflicts,
                            ;
                        }
                        proof {
                            if small {
                                assert(past + gc_pos <= (rounds + 1) * cap0) by (nonlinear_arith)
                                    requires
                                        past <= rounds * cap0,
                                        gc_pos <= cap0,
                                ;
                                past = past + gc_pos;
                            }
                        }
                        gc_next += 512;
                        gc_pos = 0;
                        proof {
                            rounds = rounds + 1;
                        }
                        let ghost s0 = *self;
                        self.restart();
                        proof {
                            assert(self.grown_from(&s0)) by {
                                assert forall|v: int|
                                    0 <= v < s0.variables@.len() && (#[trigger] s0.variables@[v]).assigned()
                                        && s0.variables@[v].depth.0 == 0 implies self.variables@[v]
                                    == s0.variables@[v] by {
                                    if on_trail(s0.applications@, s0.place@, v) {
                                        assert(entry_ok(
                                            s0.variables@,
                                            s0.applications@,
                                            s0.levels@,
                                            s0.place@[v],
                                        ));
                                    }
                                }
                            }
                            self.lemma_complete_grown(&s0);
                        }
                        let ghost s1 = *self;
                        self.delete_clauses();
                        proof {
                            assert(self.grown_from(&s1)) by {
                                assert forall|v: int|
                                    0 <= v < s1.variables@.len() && (#[trigger] s1.variables@[v]).assigned()
                                        && s1.variables@[v].depth.0 == 0 implies self.variables@[v].assigned()
                                    && self.variables@[v].depth.0 == 0 && self.variables@[v].value
                                    == s1.variables@[v].value by {
                                    assert(self.variables@[v].same_state(&s1.variables@[v]));
                                }
                            }
                            self.lemma_complete_grown(&s1);
                            lemma_phi_empty(self.levels@, self.active_variables as int);
                        }
                    }
                    let ghost s2 = *self;
                    self.decide();
                    proof {
                        self.lemma_complete_grown(&s2);
                        lemma_phi_decided(
                            s2.levels@,
                            s2.applications@.len() as int,
                            s2.active_variables as int,
                        );
                    }
                    let ghost s3 = *self;
                    conflict = self.propagate();
                    proof {
                        lemma_count_bound(self.variables@);
                        lemma_phi_grows(
                            s3.levels@,
                            s3.applications@.len() as int,
                            self.applications@.len() as int,
                            s3.active_variables as int,
                        );
                        assert(self.grown_from(&s3)) by {
                            assert forall|v: int|
                                0 <= v < s3.variables@.len() && (#[trigger] s3.variables@[v]).assigned()
                                    && s3.variables@[v].depth.0 == 0 implies self.variables@[v].assigned()
                                && self.variables@[v].depth.0 == 0 && self.variables@[v].value
                                == s3.variables@[v].value by {
                                assert(self.variables@[v].same_state(&s3.variables@[v]));
                            }
                        }
                        self.lemma_complete_grown(&s3);
                    }
                },
            }
        }
    }

    /// When every variable is assigned and the clauses are quiet, the values
    /// make the clauses hold that the problem was made from.
    pub(crate) proof fn lemma_model(&self)
        requires
            self.inv(),
            self.calm(),
            self.complete(),
            self.total(),
        ensures
            formula_holds(self.values(), self.origin@),
    {
        let m = self.values();
        let vars = self.variables@;
        assert forall|c: int| 0 <= c < self.base@ implies clause_holds(
            m,
            (#[trigger] self.clauses@[c]).lits(),
        ) by {
            assert(self.clauses@[c].wf(vars.len()));
            lemma_quiet_total(vars, self.clauses@, m, c);
        }
        assert(super::base_holds(m, self.clauses@, self.base@));
        assert(agrees_fixed(m, vars));
    }

    /// A clause that is falsified at depth 0 shows that the clauses that the
    /// problem was made from have no model.
    pub(crate) proof fn lemma_refuted(&self, cid: usize)
        requires
            self.inv(),
            self.sound(),
            self.depth.0 == 0,
            self.conflicting(cid),
        ensures
            !satisfiable(self.origin@, self.variables@.len()),
    {
        let vars = self.variables@;
        let lits = self.clauses@[cid as int].lits();
        assert(self.clauses@[cid as int].wf(vars.len()));
        if satisfiable(self.origin@, vars.len()) {
            let m = choose|m: Seq<bool>| m.len() == vars.len() && #[trigger] formula_holds(m, self.origin@);
            assert(agrees_fixed(m, vars));
            assert(entails(self.origin@, vars.len(), self.clauses@[cid as int].lits()));
            assert(clause_holds(m, lits));
            let k = choose|k: int| 0 <= k < lits.len() && lit_holds(m, #[trigger] lits[k]);
            assert(lit_false(vars, lits[k]));
            assert(vars[lits[k].var()].depth.0 <= 0);
        }
    }

    /// The number of conflicts that the search has met.
    pub open(crate) spec fn conflicts(&self) -> u64 {
        self.num_conflicts
    }

    /// The problem is small enough for the search to be sure of an answer:
    /// it has 22 open variables at most, and its counter of conflicts is
    /// far from its end. Between two fresh starts a search over so many
    /// variables meets 47071589413 conflicts at most, and the stretches
    /// between fresh starts grow, so that the counter cannot run full.
    pub open(crate) spec fn small(&self) -> bool {
        self.active_variables <= SURE && self.num_conflicts <= 1_000_000_000_000_000_000
    }

    /// The room that is left for conflicts: what a search over the open
    /// variables can meet at most, less how far the trail has come. Every
    /// conflict takes one away at least, and no step of the search gives
    /// any back.
    pub open(crate) spec fn room(&self) -> int {
        cap(self.active_variables as int) - phi(
            self.levels@,
            self.applications@.len() as int,
            self.active_variables as int,
        )
    }

    /// A conflict stays one while the values stay.
    pub(crate) proof fn lemma_conflict_stays(&self, before: &Problem<T>, cid: usize)
        requires
            before.conflicting(cid),
            before.inv(),
            self.clauses == before.clauses,
            self.depth == before.depth,
            self.variables@.len() == before.variables@.len(),
            forall|v: int|
                0 <= v < before.variables@.len() ==> (#[trigger] self.variables@[v]).value
                    == before.variables@[v].value && self.variables@[v].depth
                    == before.variables@[v].depth,
        ensures
            self.conflicting(cid),
    {
        let lits = self.clauses@[cid as int].lits();
        assert(before.clauses@[cid as int].wf(before.variables@.len()));
        assert forall|k: int| 0 <= k < lits.len() implies lit_false(
            self.variables@,
            #[trigger] lits[k],
        ) by {
            assert(lit_false(before.variables@, lits[k]));
            assert(lits[k].var() < before.variables@.len());
        }
        let k = choose|k: int|
            0 <= k < lits.len() && lit_depth(before.variables@, #[trigger] lits[k]) == before.depth.0;
        assert(lit_depth(self.variables@, lits[k]) == self.depth.0);
    }
}

} // verus!
