use vstd::prelude::*;

use crate::cnf::logic::{clause_holds, entails, formula_holds, lit_holds, satisfiable};
use crate::cnf::valuation::{lit_false, lit_true};
use crate::cnf::variable::Q_ONE;
use crate::cnf::watching::{holds, lists_distinct, unlinked};
use crate::cnf::{Clause, Literal, Variable, VariableId};
use crate::util::Histo;
use crate::SolverResult;

pub mod bound;
pub(crate) mod guard;
pub(crate) mod initialization;
pub mod precompute;
pub(crate) mod solve;

pub use self::solve::forget_half;

verus! {

/// The activity step is a fixed-point number in millionths; it starts here.
pub const ALPHA_START: u64 = 400_000;

/// The activity step is lowered by one millionth with each conflict until it
/// has come down to this.
pub const ALPHA_FLOOR: u64 = 60_000;

/// A problem in conjunctive normal form, and the state of the search for a
/// model of it. `T` is the type of the variables' names.
pub struct Problem<T> {
    pub(crate) alpha: u64,
    pub(crate) gc_count: u64,
    pub(crate) variables: Vec<Variable>,
    pub(crate) variable_names: Vec<T>,
    pub(crate) clauses: Vec<Clause>,
    pub(crate) applications: Vec<VariableId>,
    pub(crate) irreducible: usize,
    pub(crate) num_conflicts: u64,
    pub(crate) last_conflict: Vec<u64>,
    pub(crate) plays: Vec<VariableId>,
    pub(crate) depth: VariableId,
    pub(crate) active_variables: usize,
    pub(crate) conflict_lens: Histo,
    pub(crate) solution: Option<SolverResult>,
    /// Where on the trail each variable stands, if it stands on it.
    pub(crate) place: Ghost<Seq<int>>,
    /// Where on the trail each decision depth begins.
    pub(crate) levels: Ghost<Seq<int>>,
    /// The clauses that the problem was made from.
    pub(crate) origin: Ghost<Seq<Seq<Literal>>>,
    /// How many clauses were left when the problem had been made; they stay
    /// the first clauses ever after.
    pub(crate) base: Ghost<nat>,
}

/// The number of variables that are not assigned.
pub open(crate) spec fn count_unassigned(vars: Seq<Variable>) -> nat
    decreases vars.len(),
{
    if vars.len() == 0 {
        0
    } else {
        count_unassigned(vars.drop_last()) + if vars.last().assigned() {
            0nat
        } else {
            1nat
        }
    }
}

/// Changing one variable changes the number of open variables by that one.
pub proof fn lemma_count_update(vars: Seq<Variable>, x: int, var: Variable)
    requires
        0 <= x < vars.len(),
    ensures
        count_unassigned(vars.update(x, var)) == count_unassigned(vars) - (if vars[x].assigned() {
            0int
        } else {
            1int
        }) + (if var.assigned() {
            0int
        } else {
            1int
        }),
        count_unassigned(vars) <= vars.len(),
    decreases vars.len(),
{
    let after = vars.update(x, var);
    lemma_count_bound(vars);
    if x == vars.len() - 1 {
        assert(after.drop_last() =~= vars.drop_last());
    } else {
        assert(after.drop_last() =~= vars.drop_last().update(x, var));
        lemma_count_update(vars.drop_last(), x, var);
    }
}

/// No more variables are open than there are variables.
pub proof fn lemma_count_bound(vars: Seq<Variable>)
    ensures
        count_unassigned(vars) <= vars.len(),
    decreases vars.len(),
{
    if vars.len() > 0 {
        lemma_count_bound(vars.drop_last());
    }
}

/// Where no variable is counted open, every variable is assigned; where one
/// is counted, one is open.
pub proof fn lemma_count_zero(vars: Seq<Variable>)
    ensures
        count_unassigned(vars) == 0 <==> forall|v: int|
            0 <= v < vars.len() ==> (#[trigger] vars[v]).assigned(),
    decreases vars.len(),
{
    if vars.len() > 0 {
        let rest = vars.drop_last();
        lemma_count_zero(rest);
        if count_unassigned(vars) == 0 {
            assert forall|v: int| 0 <= v < vars.len() implies (#[trigger] vars[v]).assigned() by {
                if v < rest.len() {
                    assert(rest[v].assigned());
                }
            }
        }
        if forall|v: int| 0 <= v < vars.len() ==> (#[trigger] vars[v]).assigned() {
            assert forall|v: int| 0 <= v < rest.len() implies (#[trigger] rest[v]).assigned() by {
                assert(vars[v].assigned());
            }
        }
    }
}

/// Two states with the same values have the same number of open variables.
pub proof fn lemma_count_same(a: Seq<Variable>, b: Seq<Variable>)
    requires
        a.len() == b.len(),
        forall|v: int| 0 <= v < a.len() ==> (#[trigger] a[v]).assigned() == b[v].assigned(),
    ensures
        count_unassigned(a) == count_unassigned(b),
    decreases a.len(),
{
    if a.len() > 0 {
        assert forall|v: int| 0 <= v < a.drop_last().len() implies (#[trigger] a.drop_last()[v]).assigned()
            == b.drop_last()[v].assigned() by {
            assert(a[v].assigned() == b[v].assigned());
        }
        lemma_count_same(a.drop_last(), b.drop_last());
        assert(a[a.len() - 1].assigned() == b[a.len() - 1].assigned());
    }
}

/// The variable `v` stands on the trail.
pub open(crate) spec fn on_trail(trail: Seq<VariableId>, place: Seq<int>, v: int) -> bool {
    0 <= place[v] < trail.len() && trail[place[v]].0 == v
}

/// The trail's entry `i` lies within the stretch of its depth, and only the
/// first entry of a stretch above depth 0 is a decision.
pub open(crate) spec fn entry_ok(
    vars: Seq<Variable>,
    trail: Seq<VariableId>,
    levels: Seq<int>,
    i: int,
) -> bool {
    let var = vars[trail[i].0 as int];
    let d = var.depth.0 as int;
    &&& d <= levels.len()
    &&& (d >= 1 ==> levels[d - 1] <= i)
    &&& (d < levels.len() ==> i < levels[d])
    &&& (d >= 1 ==> (var.ante == usize::MAX <==> i == levels[d - 1]))
}

/// What holds of the trail: it lists assigned variables, each once, in the
/// order in which they were assigned, so that depths never fall along it;
/// every assigned variable is on it or is fixed at depth 0; each depth from 1
/// to the current one begins with its decision.
pub open(crate) spec fn trail_ok(
    vars: Seq<Variable>,
    trail: Seq<VariableId>,
    place: Seq<int>,
    levels: Seq<int>,
    depth: usize,
) -> bool {
    &&& place.len() == vars.len()
    &&& levels.len() == depth
    &&& forall|i: int|
        0 <= i < trail.len() ==> (#[trigger] trail[i]).0 < vars.len() && vars[trail[i].0 as int].assigned()
            && place[trail[i].0 as int] == i
    &&& forall|v: int|
        0 <= v < vars.len() && (#[trigger] vars[v]).assigned() ==> vars[v].depth.0 <= depth && (
        on_trail(trail, place, v) || vars[v].depth.0 == 0)
    &&& forall|d: int| 0 <= d < levels.len() ==> 0 <= #[trigger] levels[d] < trail.len()
    &&& forall|d: int, e: int| 0 <= d < e < levels.len() ==> levels[d] < levels[e]
    &&& (depth >= 1 ==> levels[0] == 0)
    &&& forall|i: int| 0 <= i < trail.len() ==> #[trigger] entry_ok(vars, trail, levels, i)
}

/// What holds of the watch lists: no list holds a clause twice, or a number
/// that is no clause's; each clause is well formed and stands in the lists of
/// its two watched literals and in no other, or in no list at all.
pub open(crate) spec fn watch_ok(vars: Seq<Variable>, clauses: Seq<Clause>) -> bool {
    &&& lists_distinct(vars)
    &&& forall|c: int|
        0 <= c < clauses.len() ==> (#[trigger] clauses[c]).wf(vars.len()) && (clauses[c].linked(
            c as usize,
            vars,
        ) || unlinked(vars, c as usize))
    &&& forall|cid: usize, v: int, n: bool|
        0 <= v < vars.len() && #[trigger] holds(vars, cid, v, n) ==> cid < clauses.len()
}

/// The clause `lits` has forced the value of the variable `v`: its literal
/// over `v` is true, and every other literal is false and was so before `v`
/// was assigned.
pub open(crate) spec fn implied_by(
    vars: Seq<Variable>,
    trail: Seq<VariableId>,
    place: Seq<int>,
    lits: Seq<Literal>,
    v: int,
) -> bool {
    &&& exists|k: int| 0 <= k < lits.len() && (#[trigger] lits[k]).var() == v && lit_true(vars, lits[k])
    &&& forall|k: int|
        0 <= k < lits.len() && (#[trigger] lits[k]).var() != v ==> lit_false(vars, lits[k]) && (
        on_trail(trail, place, lits[k].var()) ==> place[lits[k].var()] < place[v])
}

/// The variable `v` is a decision, or the clause that it names as its reason
/// has forced its value.
pub open(crate) spec fn reason_ok(
    vars: Seq<Variable>,
    clauses: Seq<Clause>,
    trail: Seq<VariableId>,
    place: Seq<int>,
    v: int,
) -> bool {
    vars[v].ante != usize::MAX ==> vars[v].ante < clauses.len() && implied_by(
        vars,
        trail,
        place,
        clauses[vars[v].ante as int].lits(),
        v,
    )
}

/// The values `m` give every variable that is assigned at depth 0 the value
/// it is assigned.
pub open(crate) spec fn agrees_fixed(m: Seq<bool>, vars: Seq<Variable>) -> bool {
    forall|v: int|
        0 <= v < vars.len() && (#[trigger] vars[v]).assigned() && vars[v].depth.0 == 0 ==> m[v]
            == vars[v].value
}

/// Every clause follows from the formula `origin`.
pub open(crate) spec fn all_entailed(origin: Seq<Seq<Literal>>, n: nat, clauses: Seq<Clause>) -> bool {
    forall|c: int| 0 <= c < clauses.len() ==> entails(origin, n, (#[trigger] clauses[c]).lits())
}

/// Every value that is assigned at depth 0 follows from the formula `origin`:
/// all values that make the formula hold agree with it.
pub open(crate) spec fn fixed_entailed(origin: Seq<Seq<Literal>>, vars: Seq<Variable>) -> bool {
    forall|m: Seq<bool>|
        m.len() == vars.len() && #[trigger] formula_holds(m, origin) ==> agrees_fixed(m, vars)
}

/// The first `base` clauses hold under the values `m`.
pub open(crate) spec fn base_holds(m: Seq<bool>, clauses: Seq<Clause>, base: nat) -> bool {
    forall|c: int| 0 <= c < base ==> clause_holds(m, (#[trigger] clauses[c]).lits())
}

/// Values that agree with what is assigned at depth 0, and under which the
/// first `base` clauses hold, make the formula `origin` hold.
pub open(crate) spec fn covering(
    origin: Seq<Seq<Literal>>,
    vars: Seq<Variable>,
    clauses: Seq<Clause>,
    base: nat,
) -> bool {
    &&& base <= clauses.len()
    &&& forall|m: Seq<bool>|
        m.len() == vars.len() && agrees_fixed(m, vars) && #[trigger] base_holds(m, clauses, base)
            ==> formula_holds(m, origin)
}

/// The first clauses go on covering the formula while their literals stay
/// and no value that is assigned at depth 0 is lost or changed.
pub(crate) proof fn lemma_covering_kept(
    origin: Seq<Seq<Literal>>,
    base: nat,
    vars0: Seq<Variable>,
    vars1: Seq<Variable>,
    clauses0: Seq<Clause>,
    clauses1: Seq<Clause>,
)
    requires
        covering(origin, vars0, clauses0, base),
        vars0.len() == vars1.len(),
        base <= clauses1.len(),
        forall|v: int|
            0 <= v < vars0.len() && (#[trigger] vars0[v]).assigned() && vars0[v].depth.0 == 0
                ==> vars1[v].assigned() && vars1[v].depth.0 == 0 && vars1[v].value == vars0[v].value,
        forall|c: int| 0 <= c < base ==> (#[trigger] clauses1[c]).lits() == clauses0[c].lits(),
    ensures
        covering(origin, vars1, clauses1, base),
{
    assert forall|m: Seq<bool>|
        m.len() == vars1.len() && agrees_fixed(m, vars1) && #[trigger] base_holds(
            m,
            clauses1,
            base,
        ) implies formula_holds(m, origin) by {
        assert forall|v: int|
            0 <= v < vars0.len() && (#[trigger] vars0[v]).assigned() && vars0[v].depth.0
                == 0 implies m[v] == vars0[v].value by {
            assert(vars1[v].assigned());
        }
        assert forall|c: int| 0 <= c < base implies clause_holds(m, (#[trigger] clauses0[c]).lits()) by {
            assert(clause_holds(m, clauses1[c].lits()));
        }
        assert(base_holds(m, clauses0, base));
    }
}

/// What follows from a formula goes on following when variables lose their
/// values, gain values above depth 0, or change in what is not their value.
pub(crate) proof fn lemma_fixed_entailed_kept(origin: Seq<Seq<Literal>>, before: Seq<Variable>, after: Seq<Variable>)
    requires
        fixed_entailed(origin, before),
        before.len() == after.len(),
        forall|v: int|
            0 <= v < after.len() && (#[trigger] after[v]).assigned() && after[v].depth.0 == 0
                ==> before[v].assigned() && before[v].depth.0 == 0 && before[v].value == after[v].value,
    ensures
        fixed_entailed(origin, after),
{
    assert forall|m: Seq<bool>|
        m.len() == after.len() && #[trigger] formula_holds(m, origin) implies agrees_fixed(m, after) by {
        assert(agrees_fixed(m, before));
        assert forall|v: int|
            0 <= v < after.len() && (#[trigger] after[v]).assigned() && after[v].depth.0
                == 0 implies m[v] == after[v].value by {
            assert(before[v].assigned());
        }
    }
}

/// A value that follows from the formula can be assigned at depth 0.
pub(crate) proof fn lemma_fixed_entailed_more(
    origin: Seq<Seq<Literal>>,
    before: Seq<Variable>,
    after: Seq<Variable>,
    x: int,
)
    requires
        fixed_entailed(origin, before),
        before.len() == after.len(),
        0 <= x < before.len(),
        forall|v: int| 0 <= v < after.len() && v != x ==> #[trigger] after[v] == before[v],
        forall|m: Seq<bool>|
            m.len() == before.len() && #[trigger] formula_holds(m, origin) ==> m[x] == after[x].value,
    ensures
        fixed_entailed(origin, after),
{
    assert forall|m: Seq<bool>|
        m.len() == after.len() && #[trigger] formula_holds(m, origin) implies agrees_fixed(m, after) by {
        assert(agrees_fixed(m, before));
        assert forall|v: int|
            0 <= v < after.len() && (#[trigger] after[v]).assigned() && after[v].depth.0
                == 0 implies m[v] == after[v].value by {
            if v != x {
                assert(after[v] == before[v]);
                assert(before[v].assigned());
            }
        }
    }
}

/// A clause that follows from the formula, with all its literals but one
/// false at depth 0, makes that one follow.
pub(crate) proof fn lemma_unit_entailed(
    origin: Seq<Seq<Literal>>,
    vars: Seq<Variable>,
    lits: Seq<Literal>,
    lit: Literal,
    m: Seq<bool>,
)
    requires
        fixed_entailed(origin, vars),
        entails(origin, vars.len(), lits),
        m.len() == vars.len(),
        formula_holds(m, origin),
        forall|k: int|
            0 <= k < lits.len() && lits[k] != lit ==> (#[trigger] lits[k]).var() < vars.len()
                && lit_false(vars, lits[k]) && vars[lits[k].var()].depth.0 == 0,
    ensures
        lit_holds(m, lit),
{
    assert(agrees_fixed(m, vars));
    assert(clause_holds(m, lits));
    let k = choose|k: int| 0 <= k < lits.len() && lit_holds(m, #[trigger] lits[k]);
    if lits[k] != lit {
        assert(vars[lits[k].var()].assigned());
        assert(m[lits[k].var()] == vars[lits[k].var()].value);
    }
}

/// Every variable on the trail has its reason.
pub open(crate) spec fn reasons_ok(
    vars: Seq<Variable>,
    clauses: Seq<Clause>,
    trail: Seq<VariableId>,
    place: Seq<int>,
) -> bool {
    forall|i: int|
        0 <= i < trail.len() ==> #[trigger] reason_ok(vars, clauses, trail, place, trail[i].0 as int)
}

impl<T> Problem<T> {
    /// The variables, as the search has them.
    pub open(crate) spec fn vars(&self) -> Seq<Variable> {
        self.variables@
    }

    /// The trail: the assigned variables in the order of their assignment.
    pub open(crate) spec fn trail(&self) -> Seq<VariableId> {
        self.applications@
    }

    /// The clauses that the problem was made from.
    pub open(crate) spec fn origin(&self) -> Seq<Seq<Literal>> {
        self.origin@
    }

    /// The number of variables.
    pub open(crate) spec fn size(&self) -> nat {
        self.variables@.len()
    }

    /// The names of the variables.
    pub open(crate) spec fn names(&self) -> Seq<T> {
        self.variable_names@
    }

    /// The verdict that was reached when the problem was made, if one was.
    pub open(crate) spec fn solution(&self) -> Option<SolverResult> {
        self.solution
    }

    /// The value that is stored for each variable.
    pub open(crate) spec fn values(&self) -> Seq<bool> {
        Seq::new(self.variables@.len(), |v: int| self.variables@[v].value)
    }

    /// Whether every variable is assigned.
    pub open(crate) spec fn total(&self) -> bool {
        forall|v: int| 0 <= v < self.variables@.len() ==> (#[trigger] self.variables@[v]).assigned()
    }

    /// What holds of every problem: it has a name for each variable, and
    /// unless its answer was settled when it was made, it is ready for the
    /// search.
    pub open(crate) spec fn wf(&self) -> bool {
        &&& self.variable_names@.len() == self.variables@.len()
        &&& self.solution != Some(SolverResult::Unknown)
        &&& (self.solution.is_none() ==> self.ready() && self.sound() && self.complete()
            && crate::cnf::problem::guard::quiet(self.variables@, self.clauses@))
        &&& (self.solution == Some(SolverResult::Unsat) ==> !satisfiable(
            self.origin@,
            self.variables@.len(),
        ))
        &&& (self.solution == Some(SolverResult::Sat) ==> formula_holds(self.values(), self.origin@)
            && self.total())
    }

    /// What holds of a problem between any two steps of the search: the trail
    /// is empty at depth 0, and `inv` holds.
    pub open(crate) spec fn ready(&self) -> bool {
        &&& self.inv()
        &&& (self.depth.0 == 0 ==> self.applications@.len() == 0)
    }

    /// What holds of a problem at every step, also while the values that
    /// follow at depth 0 are worked out.
    pub open(crate) spec fn inv(&self) -> bool {
        &&& self.variables@.len() <= usize::MAX / 2
        &&& self.variable_names@.len() == self.variables@.len()
        &&& self.last_conflict@.len() == self.variables@.len()
        &&& self.solution != Some(SolverResult::Unknown)
        &&& self.irreducible <= self.clauses@.len()
        &&& ALPHA_FLOOR <= self.alpha <= ALPHA_START
        &&& forall|v: int| 0 <= v < self.variables@.len() ==> (#[trigger] self.variables@[v]).q <= Q_ONE
        &&& forall|p: int| 0 <= p < self.plays@.len() ==> (#[trigger] self.plays@[p]).0 < self.variables@.len()
        &&& forall|v: int|
            0 <= v < self.last_conflict@.len() ==> #[trigger] self.last_conflict@[v] <= self.num_conflicts
        &&& forall|bin: int| self.conflict_lens.count(bin) <= self.num_conflicts
        &&& self.gc_count <= self.num_conflicts
        &&& self.active_variables <= self.variables@.len()
        &&& count_unassigned(self.variables@) + self.applications@.len() == self.active_variables
        &&& trail_ok(self.variables@, self.applications@, self.place@, self.levels@, self.depth.0)
        &&& watch_ok(self.variables@, self.clauses@)
        &&& reasons_ok(self.variables@, self.clauses@, self.applications@, self.place@)
    }

    /// What the search has found out follows from the clauses that the
    /// problem was made from: every clause that it keeps, and every value
    /// that it has assigned at depth 0.
    pub open(crate) spec fn sound(&self) -> bool {
        &&& all_entailed(self.origin@, self.variables@.len(), self.clauses@)
        &&& fixed_entailed(self.origin@, self.variables@)
    }

    /// The clauses that were left when the problem had been made are still
    /// there, and with the values assigned at depth 0 they cover the clauses
    /// that the problem was made from.
    pub open(crate) spec fn complete(&self) -> bool {
        &&& covering(self.origin@, self.variables@, self.clauses@, self.base@)
        &&& self.base@ <= self.irreducible
    }

    /// From `before` on, no value assigned at depth 0 was lost or changed, and
    /// the first clauses have kept their literals.
    pub open(crate) spec fn grown_from(&self, before: &Problem<T>) -> bool {
        &&& self.variables@.len() == before.variables@.len()
        &&& self.origin == before.origin
        &&& self.base == before.base
        &&& before.irreducible <= self.irreducible <= self.clauses@.len()
        &&& forall|v: int|
            0 <= v < before.variables@.len() && (#[trigger] before.variables@[v]).assigned()
                && before.variables@[v].depth.0 == 0 ==> self.variables@[v].assigned()
                && self.variables@[v].depth.0 == 0 && self.variables@[v].value
                == before.variables@[v].value
        &&& forall|c: int|
            0 <= c < before.irreducible ==> c < before.clauses@.len() && (
            #[trigger] self.clauses@[c]).lits() == before.clauses@[c].lits()
    }

    /// A problem that has grown from a complete one is complete.
    pub(crate) proof fn lemma_complete_grown(&self, before: &Problem<T>)
        requires
            before.complete(),
            self.grown_from(before),
        ensures
            self.complete(),
    {
        lemma_covering_kept(
            self.origin@,
            self.base@,
            before.variables@,
            self.variables@,
            before.clauses@,
            self.clauses@,
        );
    }

    /// The clauses that the search keeps: those that were left when the
    /// problem had been made, and behind them those that were learned.
    pub fn clauses(&self) -> (clauses: &Vec<Clause>)
        ensures
            clauses@ == self.kept(),
    {
        &self.clauses
    }

    /// The clauses that the search keeps.
    pub open(crate) spec fn kept(&self) -> Seq<Clause> {
        self.clauses@
    }

    /// The names of the variables, in the order of their numbers.
    pub fn variable_names(&self) -> (names: &Vec<T>)
        ensures
            names@ == self.names(),
    {
        &self.variable_names
    }

    /// The trail: the variables that the search has assigned, in the order
    /// in which it has assigned them.
    pub fn applications(&self) -> (trail: &Vec<VariableId>)
        ensures
            trail@ == self.trail(),
    {
        &self.applications
    }

    /// The variables as the search has them.
    pub fn variables(&self) -> (variables: &Vec<Variable>)
        ensures
            variables@ == self.vars(),
    {
        &self.variables
    }

    /// The number of variables that are not assigned for good.
    pub fn active_variables(&self) -> (count: usize)
        ensures
            count == self.spec_active(),
    {
        self.active_variables
    }

    pub open(crate) spec fn spec_active(&self) -> usize {
        self.active_variables
    }

    /// The number of conflicts that the search has met.
    pub fn conflict_count(&self) -> (count: u64)
        ensures
            count == self.num_conflicts(),
    {
        self.num_conflicts
    }

    pub open(crate) spec fn num_conflicts(&self) -> u64 {
        self.num_conflicts
    }

    /// How many clauses of each length were learned; a clause of `n`
    /// literals is counted in the bin `n - 1`.
    pub fn conflict_lens(&self) -> (histo: &Histo)
        ensures
            *histo == self.spec_conflict_lens(),
    {
        &self.conflict_lens
    }

    pub open(crate) spec fn spec_conflict_lens(&self) -> Histo {
        self.conflict_lens
    }

    /// The depth at which the search stands: the number of decisions that
    /// are in force.
    pub open(crate) spec fn level(&self) -> int {
        self.depth.0 as int
    }

    /// The depth at which the trail's entry `i` was assigned.
    pub open(crate) spec fn depth_at(&self, i: int) -> int {
        self.variables@[self.applications@[i].0 as int].depth.0 as int
    }

    /// Along the trail depths never fall, and no entry lies deeper than the
    /// search stands. So when the search has jumped back to a depth, no entry
    /// of the trail is deeper than that depth.
    pub proof fn lemma_trail_depths(&self, i: int, j: int)
        requires
            self.inv(),
            0 <= i <= j < self.trail().len(),
        ensures
            0 <= self.depth_at(i) <= self.depth_at(j) <= self.level(),
    {
        let levels = self.levels@;
        let di = self.depth_at(i);
        let dj = self.depth_at(j);
        assert(entry_ok(self.variables@, self.applications@, levels, i));
        assert(entry_ok(self.variables@, self.applications@, levels, j));
        assert(self.applications@[j].0 < self.variables@.len());
        assert(self.variables@[self.applications@[j].0 as int].assigned());
        if di > dj {
            assert(levels[di - 1] <= i);
            assert(j < levels[dj]);
            if dj < di - 1 {
                assert(levels[dj] < levels[di - 1]);
            }
        }
    }

    /// Two searches over the same clauses and as many variables do not
    /// contradict each other: where the values of one make the clauses hold,
    /// as they do after the answer `Sat`, the clauses are satisfiable, so
    /// that the other cannot have answered `Unsat`.
    pub proof fn lemma_verdicts_agree(&self, other: &Problem<T>)
        requires
            self.origin() == other.origin(),
            self.size() == other.size(),
            formula_holds(self.values(), self.origin()),
        ensures
            satisfiable(other.origin(), other.size()),
    {
        assert(self.values().len() == other.size());
    }

    /// Every clause that the search keeps, given or learned, follows from the
    /// clauses that the problem was made from: whatever values make those
    /// hold make the clause hold.
    pub proof fn lemma_kept_entailed(&self, c: int)
        requires
            self.wf(),
            self.solution().is_none(),
            0 <= c < self.kept().len(),
        ensures
            entails(self.origin(), self.size(), self.kept()[c].lits()),
    {
    }

    /// Where every variable is assigned in a problem at rest, every clause
    /// that the search keeps holds a literal that is true.
    pub proof fn lemma_total_holds(&self, c: int)
        requires
            self.wf(),
            self.solution().is_none(),
            self.total(),
            0 <= c < self.kept().len(),
        ensures
            clause_holds(self.values(), self.kept()[c].lits()),
    {
        crate::cnf::problem::guard::lemma_quiet_total(self.variables@, self.clauses@, self.values(), c);
    }

    /// What the watches of a problem at rest promise of each of its clauses:
    /// where the second watched literal is assigned, the clause holds a true
    /// literal that was assigned no deeper; where the first is fixed at depth
    /// 0, the clause holds a literal that is true at depth 0. So no jump back
    /// leaves a clause with its watched literals false and no literal true.
    pub proof fn lemma_watches_at_rest(&self, c: int)
        requires
            self.wf(),
            self.solution().is_none(),
            0 <= c < self.kept().len(),
        ensures
            self.kept()[c].guarded(self.vars()),
            self.kept()[c].anchored(self.vars()),
            self.kept()[c].linked(c as usize, self.vars()) || self.kept()[c].fixed_true(self.vars()),
    {
        assert(crate::cnf::problem::guard::quiet_at(self.variables@, self.clauses@, c));
    }

    /// The variables' names with the values that are stored for them, in the
    /// order of the variables. After `solve` has answered `Sat` this is a model.
    pub fn model(&self) -> (result: Vec<(&T, bool)>)
        requires
            self.wf(),
        ensures
            result@.len() == self.size(),
            forall|v: int|
                0 <= v < result@.len() ==> *(#[trigger] result@[v]).0 == self.names()[v] && result@[v].1
                    == self.values()[v],
    {
        let mut result: Vec<(&T, bool)> = Vec::with_capacity(self.variables.len());
        let mut v: usize = 0;
        while v < self.variables.len()
            invariant
                v <= self.variables@.len(),
                self.variable_names@.len() == self.variables@.len(),
                result@.len() == v,
                forall|u: int|
                    0 <= u < v ==> *(#[trigger] result@[u]).0 == self.variable_names@[u] && result@[u].1
                        == self.variables@[u].value,
            decreases self.variables@.len() - v,
        {
            result.push((&self.variable_names[v], self.variables[v].value));
            v += 1;
        }
        result
    }
}

} // verus!
