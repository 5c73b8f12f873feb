use vstd::prelude::*;

use super::precompute::{formula_in_range, precompute};
use super::solve::{lemma_watch_after_apply, lemma_watch_ok_same_lists};
use super::guard::{lemma_home_same, quiet_at};
use super::{
    agrees_fixed, base_holds, count_unassigned, lemma_count_bound, lemma_covering_kept,
    lemma_fixed_entailed_kept, on_trail, watch_ok, Problem, ALPHA_START,
};
use crate::cnf::logic::{agrees, clause_holds, entails, formula_holds, formula_of, models, satisfiable};
use crate::cnf::valuation::{ascending, distinct_vars, lits_in_range};
use crate::cnf::variable::Q_ONE;
use crate::cnf::watching::{holds, unlinked};
use crate::cnf::{Clause, Literal, Variable, VariableId};
use crate::util::Histo;
use crate::SolverResult;

verus! {

/// The weight of a clause of `len` literals in the first activities: a
/// fixed-point number, 2 to the power of 20 standing for one, that halves
/// with each literal, so that clauses of more than 20 literals weigh nothing.
pub open spec fn clause_weight(len: nat) -> nat
    decreases len,
{
    if len == 0 {
        1_048_576
    } else {
        clause_weight((len - 1) as nat) / 2
    }
}

/// No clause weighs more than one.
pub proof fn lemma_clause_weight_bound(len: nat)
    ensures
        clause_weight(len) <= 1_048_576,
    decreases len,
{
    if len > 0 {
        lemma_clause_weight_bound((len - 1) as nat);
    }
}

/// Works the weight of a clause of `len` literals out.
pub fn weigh(len: usize) -> (weight: u64)
    ensures
        weight == clause_weight(len as nat),
{
    let mut weight: u64 = 1_048_576;
    let mut k: usize = 0;
    while k < len && weight > 0
        invariant
            k <= len,
            weight == clause_weight(k as nat),
        decreases len - k,
    {
        weight = weight / 2;
        k += 1;
    }
    proof {
        lemma_weightless(k as nat, len as nat);
    }
    weight
}

/// A clause longer than one that weighs nothing weighs nothing.
pub proof fn lemma_weightless(k: nat, len: nat)
    requires
        k <= len,
        k < len ==> clause_weight(k) == 0,
    ensures
        clause_weight(len) == clause_weight(k),
    decreases len - k,
{
    if k < len {
        lemma_weightless(k, (len - 1) as nat);
    }
}

/// One of the first `upto` literals is the literal of the variable `v`
/// with the sign `negated`.
pub open(crate) spec fn signed_upto(lits: Seq<Literal>, v: int, negated: bool, upto: int) -> bool {
    exists|k: int| 0 <= k < upto && k < lits.len() && (#[trigger] lits[k]).var() == v && lits[k].spec_negated() == negated
}

/// The weights of the first `upto` clauses that hold the literal of the
/// variable `v` with the sign `negated`, taken together.
pub open(crate) spec fn weight_of(f: Seq<Seq<Literal>>, upto: int, v: int, negated: bool) -> nat
    decreases upto,
{
    if upto <= 0 {
        0
    } else {
        weight_of(f, upto - 1, v, negated) + if signed_upto(f[upto - 1], v, negated, f[upto - 1].len() as int) {
            clause_weight(f[upto - 1].len())
        } else {
            0nat
        }
    }
}

/// The literals of the clauses.
pub open(crate) spec fn lits_of(clauses: Seq<Clause>) -> Seq<Seq<Literal>> {
    Seq::new(clauses.len(), |c: int| clauses[c].lits())
}

/// The state of variables that nothing watches yet.
pub open(crate) spec fn unwatched(vars: Seq<Variable>) -> bool {
    forall|v: int, n: bool| 0 <= v < vars.len() ==> (#[trigger] vars[v].watchlist(n)).len() == 0
}

impl<T> Problem<T> {
    /// Makes a problem of clauses over variables with the given names; the
    /// literals of the clauses name the variables by their places among
    /// `names`. The passes that run before the search are run at once: they
    /// may settle the answer, which `solve` then only reports. Where they
    /// settle that there is a model, the variables that they have left open
    /// are fixed at the values stored for them, so that the model is total.
    /// Where they leave the answer open, the open variables get their first
    /// activities and phases: see `seeded`.
    pub fn new(names: Vec<T>, clauses: Vec<Vec<Literal>>) -> (problem: Problem<T>)
        requires
            names@.len() <= usize::MAX / 2,
            formula_in_range(formula_of(clauses@), names@.len()),
        ensures
            problem.wf(),
            problem.names() == names@,
            problem.size() == names@.len(),
            problem.origin() == formula_of(clauses@),
            problem.conflicts() == 0,
            problem.solution() == Some(SolverResult::Sat) ==> problem.kept().len() == 0 && problem.spec_active()
                == 0,
            problem.solution().is_none() ==> exists|most: nat| #[trigger] problem.seeded(most),
    {
        let ghost origin = formula_of(clauses@);
        let mut clauses = clauses;
        let varcount = names.len();
        let mut variables: Vec<Variable> = Vec::with_capacity(varcount);
        let mut v: usize = 0;
        while v < varcount
            invariant
                v <= varcount,
                variables@.len() == v,
                forall|u: int|
                    0 <= u < v ==> !(#[trigger] variables@[u]).assigned() && variables@[u].q == 0
                        && variables@[u].watchlist(false).len() == 0 && variables@[u].watchlist(
                        true,
                    ).len() == 0,
            decreases varcount - v,
        {
            variables.push(Variable::new());
            v += 1;
        }
        let ghost vars0 = variables@;
        let solution = precompute(&mut variables, &mut clauses);
        let irreducible = clauses.len();
        let last_conflict: Vec<u64> = vec![0u64; varcount];
        let mut active_variables: usize = 0;
        let mut v: usize = 0;
        proof {
            assert(variables@.take(0) =~= Seq::<Variable>::empty());
        }
        while v < varcount
            invariant
                v <= varcount,
                variables@.len() == varcount,
                active_variables == count_unassigned(variables@.take(v as int)),
                active_variables <= v,
            decreases varcount - v,
        {
            proof {
                assert(variables@.take(v + 1).drop_last() =~= variables@.take(v as int));
            }
            if !variables[v].has_value() {
                active_variables += 1;
            }
            v += 1;
        }
        proof {
            assert(variables@.take(varcount as int) =~= variables@);
        }
        let ghost lists = clauses@;
        let mut stored: Vec<Clause> = Vec::with_capacity(clauses.len());
        let mut c: usize = 0;
        while c < clauses.len()
            invariant
                c <= clauses@.len(),
                clauses@.len() == lists.len(),
                stored@.len() == c,
                forall|k: int| c <= k < lists.len() ==> clauses@[k] == lists[k],
                forall|k: int|
                    0 <= k < c ==> (#[trigger] stored@[k]).lits() == lists[k]@ && stored@[k].w0() == 0
                        && stored@[k].w1() == 1,
            decreases clauses@.len() - c,
        {
            let mut literals: Vec<Literal> = Vec::new();
            core::mem::swap(&mut literals, &mut clauses[c]);
            stored.push(Clause::new(literals, VariableId::from_usize(1)));
            c += 1;
        }
        let mut problem = Problem {
            alpha: ALPHA_START,
            gc_count: 0,
            variables,
            variable_names: names,
            clauses: stored,
            applications: Vec::with_capacity(varcount),
            irreducible,
            num_conflicts: 0,
            last_conflict,
            plays: Vec::with_capacity(varcount),
            depth: VariableId::from_usize(0),
            active_variables,
            conflict_lens: Histo::new(),
            solution,
            place: Ghost(Seq::new(varcount as nat, |v: int| 0int)),
            levels: Ghost(Seq::empty()),
            origin: Ghost(origin),
            base: Ghost(irreducible as nat),
        };
        proof {
            let vars = problem.variables@;
            let f1 = formula_of(lists);
            if solution == Some(SolverResult::Unsat) {
                if satisfiable(origin, vars0.len()) {
                    let m = choose|m: Seq<bool>| m.len() == vars0.len() && #[trigger] formula_holds(m, origin);
                    assert(agrees(m, vars0));
                    assert(models(m, vars0, origin));
                }
            } else {
                assert forall|m: Seq<bool>|
                    m.len() == vars.len() && #[trigger] formula_holds(m, origin) implies agrees_fixed(
                    m,
                    vars,
                ) && formula_holds(m, f1) by {
                    assert(agrees(m, vars0));
                    assert(models(m, vars0, origin));
                    assert(models(m, vars, f1));
                }
                // What is left covers what was given.
                assert forall|m: Seq<bool>|
                    m.len() == vars.len() && agrees_fixed(m, vars) && #[trigger] base_holds(
                        m,
                        problem.clauses@,
                        problem.base@,
                    ) implies formula_holds(m, origin) by {
                    assert forall|v: int| 0 <= v < vars.len() && (#[trigger] vars[v]).assigned() implies m[v]
                        == vars[v].value by {
                    }
                    assert(agrees(m, vars));
                    assert forall|c: int| 0 <= c < f1.len() implies clause_holds(m, #[trigger] f1[c]) by {
                        assert(clause_holds(m, problem.clauses@[c].lits()));
                        assert(problem.clauses@[c].lits() == lists[c]@);
                    }
                    assert(models(m, vars, f1));
                    assert(models(m, vars0, origin));
                }
                if solution == Some(SolverResult::Sat) {
                    let m = problem.values();
                    assert(agrees_fixed(m, vars));
                    assert(base_holds(m, problem.clauses@, problem.base@));
                }
                assert forall|c: int| 0 <= c < problem.clauses@.len() implies entails(
                    origin,
                    vars.len(),
                    (#[trigger] problem.clauses@[c]).lits(),
                ) by {
                    assert(problem.clauses@[c].lits() == lists[c]@);
                    assert forall|m: Seq<bool>|
                        m.len() == vars.len() && #[trigger] formula_holds(m, origin) implies clause_holds(
                        m,
                        problem.clauses@[c].lits(),
                    ) by {
                        assert(formula_holds(m, f1));
                        assert(f1[c] == lists[c]@);
                    }
                }
            }
        }
        if problem.solution.is_none() {
            proof {
                let vars = problem.variables@;
                assert(unwatched(vars)) by {
                    assert forall|u: int, n: bool| 0 <= u < vars.len() implies (#[trigger] vars[u].watchlist(
                        n,
                    )).len() == 0 by {
                        assert(vars[u].same_watchlists(&vars0[u]));
                    }
                }
                assert forall|k: int| 0 <= k < problem.clauses@.len() implies (#[trigger] problem.clauses@[k]).wf(
                    vars.len(),
                ) && forall|j: int|
                    0 <= j < problem.clauses@[k].lits().len() ==> !vars[(
                    #[trigger] problem.clauses@[k].lits()[j]).var()].assigned() by {
                    let lits = problem.clauses@[k].lits();
                    assert(lits == lists[k]@);
                    assert(ascending(lists[k]@));
                    assert forall|i: int, j: int| 0 <= i < j < lits.len() implies lits[i].var()
                        != lits[j].var() by {
                        assert(lits[i].var() < lits[j].var());
                    }
                }
                assert forall|u: int| 0 <= u < vars.len() implies (#[trigger] vars[u]).q <= Q_ONE by {
                    assert(vars[u].q == vars0[u].q);
                }
            }
            problem.initialize();
        } else if problem.solution == Some(SolverResult::Sat) {
            problem.settle();
        }
        problem
    }

    /// Makes the model total where the passes before the search have left
    /// no clause: each variable that they have not fixed is fixed at the
    /// value that is stored for it. The values stay as they are.
    fn settle(&mut self)
        requires
            old(self).variable_names@.len() == old(self).variables@.len(),
            old(self).solution == Some(SolverResult::Sat),
            formula_holds(old(self).values(), old(self).origin@),
        ensures
            final(self).wf(),
            final(self).total(),
            final(self).values() == old(self).values(),
            final(self).names() == old(self).names(),
            final(self).size() == old(self).size(),
            final(self).origin() == old(self).origin(),
            final(self).solution() == old(self).solution(),
            final(self).kept() == old(self).kept(),
            final(self).conflicts() == old(self).conflicts(),
            final(self).spec_active() == 0,
    {
        let ghost values = self.values();
        let mut v: usize = 0;
        while v < self.variables.len()
            invariant
                v <= self.variables@.len(),
                self.variables@.len() == old(self).variables@.len(),
                self.variable_names == old(self).variable_names,
                self.solution == old(self).solution,
                self.origin == old(self).origin,
                self.clauses == old(self).clauses,
                self.num_conflicts == old(self).num_conflicts,
                self.values() == values,
                values == old(self).values(),
                forall|u: int| 0 <= u < v ==> (#[trigger] self.variables@[u]).assigned(),
            decreases self.variables@.len() - v,
        {
            if !self.variables[v].has_value() {
                let value = self.variables[v].value;
                let ghost before = self.variables@;
                self.variables[v].set(value, VariableId::from_usize(0), usize::MAX);
                proof {
                    assert(self.values() =~= values) by {
                        assert forall|u: int| 0 <= u < values.len() implies self.values()[u] == values[u] by {
                            if u != v {
                                assert(self.variables@[u] == before[u]);
                            }
                            assert(values[u] == before[u].value);
                        }
                    }
                    assert forall|u: int| 0 <= u < v + 1 implies (#[trigger] self.variables@[u]).assigned() by {
                        if u != v {
                            assert(self.variables@[u] == before[u]);
                        }
                    }
                }
            }
            v += 1;
        }
        self.active_variables = 0;
    }

    /// What `new` has put together before the watch lists are filled: no
    /// list holds a clause, nothing is on the trail, and the clauses mention
    /// open variables only.
    pub open(crate) spec fn fresh(&self) -> bool {
        &&& self.variables@.len() <= usize::MAX / 2
        &&& self.variable_names@.len() == self.variables@.len()
        &&& self.last_conflict@.len() == self.variables@.len()
        &&& self.solution.is_none()
        &&& self.irreducible == self.clauses@.len()
        &&& self.alpha == ALPHA_START
        &&& self.num_conflicts == 0
        &&& self.gc_count == 0
        &&& self.plays@.len() == 0
        &&& self.applications@.len() == 0
        &&& self.depth.0 == 0
        &&& self.levels@.len() == 0
        &&& self.place@.len() == self.variables@.len()
        &&& self.conflict_lens.bins@.len() == 0
        &&& forall|v: int| 0 <= v < self.last_conflict@.len() ==> #[trigger] self.last_conflict@[v] == 0
        &&& self.active_variables == count_unassigned(self.variables@)
        &&& unwatched(self.variables@)
        &&& forall|v: int|
            0 <= v < self.variables@.len() ==> (#[trigger] self.variables@[v]).q <= Q_ONE && (
            self.variables@[v].assigned() ==> self.variables@[v].depth.0 == 0)
        &&& forall|c: int|
            0 <= c < self.clauses@.len() ==> (#[trigger] self.clauses@[c]).wf(self.variables@.len())
                && forall|k: int|
                0 <= k < self.clauses@[c].lits().len() ==> !self.variables@[(
                #[trigger] self.clauses@[c].lits()[k]).var()].assigned()
    }

    /// The weight of the open variable `v`: the weights of the clauses that
    /// hold it, with either sign, taken together.
    pub open(crate) spec fn weight(&self, v: int) -> nat {
        weight_of(lits_of(self.clauses@), self.clauses@.len() as int, v, false) + weight_of(
            lits_of(self.clauses@),
            self.clauses@.len() as int,
            v,
            true,
        )
    }

    /// The open variables have their first activities and phases, `most`
    /// being the largest weight among them: the phase of each is the sign
    /// whose clauses weigh more, negated where the negated ones do; its
    /// activity is its weight measured against the largest, in parts of
    /// `Q_ONE`.
    pub open(crate) spec fn seeded(&self, most: nat) -> bool {
        &&& forall|v: int|
            0 <= v < self.variables@.len() && !(#[trigger] self.variables@[v]).assigned() ==> {
                &&& self.weight(v) <= most
                &&& self.variables@[v].value == (weight_of(
                    lits_of(self.clauses@),
                    self.clauses@.len() as int,
                    v,
                    false,
                ) < weight_of(lits_of(self.clauses@), self.clauses@.len() as int, v, true))
                &&& (most > 0 ==> self.variables@[v].q == (self.weight(v) * Q_ONE) as int / (most as int))
            }
        &&& (most == 0 || exists|u: int|
            0 <= u < self.variables@.len() && !(#[trigger] self.variables@[u]).assigned() && self.weight(u)
                == most)
    }

    /// Makes the problem ready for the search. Each clause picks the two
    /// literals it watches. Each open variable gets its first activity, the
    /// weights of the clauses that mention it, taken together and scaled so
    /// that the largest activity is one; it gets as its phase the sign whose
    /// clauses weigh more.
    pub(crate) fn initialize(&mut self)
        requires
            old(self).fresh(),
        ensures
            final(self).ready(),
            old(self).sound() ==> final(self).sound(),
            old(self).complete() ==> final(self).complete(),
            final(self).calm(),
            final(self).solution.is_none(),
            exists|most: nat| #[trigger] final(self).seeded(most),
            forall|v: int|
                0 <= v < final(self).variables@.len() ==> (#[trigger] final(self).variables@[v]).q == old(
                    self,
                ).variables@[v].q || !old(self).variables@[v].assigned(),
            final(self).num_conflicts == old(self).num_conflicts,
            final(self).variable_names == old(self).variable_names,
            final(self).origin == old(self).origin,
            final(self).base == old(self).base,
            final(self).variables@.len() == old(self).variables@.len(),
            final(self).clauses@.len() == old(self).clauses@.len(),
            forall|c: int|
                0 <= c < final(self).clauses@.len() ==> (#[trigger] final(self).clauses@[c]).lits()
                    == old(self).clauses@[c].lits(),
            forall|v: int|
                0 <= v < final(self).variables@.len() ==> (#[trigger] final(self).variables@[v]).depth
                    == old(self).variables@[v].depth && (old(self).variables@[v].assigned()
                    ==> final(self).variables@[v].value == old(self).variables@[v].value),
    {
        let ghost vars0 = self.variables@;
        let ghost clauses0 = self.clauses@;
        let n = self.variables.len();
        let mut lo: Vec<u128> = vec![0u128; n];
        let mut hi: Vec<u128> = vec![0u128; n];
        proof {
            assert forall|u: int, m: bool| 0 <= u < vars0.len() implies (#[trigger] vars0[u].watchlist(
                m,
            )).no_duplicates() by {
                assert(vars0[u].watchlist(m).len() == 0);
            }
            assert forall|x: usize, u: int, m: bool| 0 <= u < vars0.len() implies !#[trigger] holds(
                vars0,
                x,
                u,
                m,
            ) by {
                assert(vars0[u].watchlist(m).len() == 0);
            }
        }
        let ghost f = lits_of(clauses0);
        let mut i: usize = 0;
        while i < self.clauses.len()
            invariant
                i <= self.clauses@.len(),
                n == vars0.len(),
                lo@.len() == n,
                hi@.len() == n,
                f == lits_of(clauses0),
                f.len() == clauses0.len(),
                forall|u: int| 0 <= u < n ==> #[trigger] lo@[u] == weight_of(f, i as int, u, false),
                forall|u: int| 0 <= u < n ==> #[trigger] hi@[u] == weight_of(f, i as int, u, true),
                self.clauses@.len() == clauses0.len(),
                self.clauses@.len() <= usize::MAX,
                self.variables@.len() == vars0.len(),
                watch_ok(self.variables@, self.clauses@),
                forall|c: int| 0 <= c < i ==> (#[trigger] self.clauses@[c]).linked(c as usize, self.variables@),
                forall|c: int| i <= c < clauses0.len() ==> self.clauses@[c] == clauses0[c],
                forall|x: usize| i <= x ==> #[trigger] unlinked(self.variables@, x),
                forall|c: int|
                    0 <= c < clauses0.len() ==> (#[trigger] self.clauses@[c]).lits() == clauses0[c].lits(),
                forall|u: int, m: bool|
                    0 <= u < vars0.len() ==> (#[trigger] self.variables@[u].watchlist(m)).len() <= i,
                forall|u: int| 0 <= u < vars0.len() ==> (#[trigger] self.variables@[u]).same_state(&vars0[u]),
                forall|u: int| 0 <= u < n ==> #[trigger] lo@[u] <= i * 1_048_576,
                forall|u: int| 0 <= u < n ==> #[trigger] hi@[u] <= i * 1_048_576,
                old(self).fresh(),
                vars0 == old(self).variables@,
                clauses0 == old(self).clauses@,
                self.variable_names == old(self).variable_names,
                self.last_conflict == old(self).last_conflict,
                self.irreducible == old(self).irreducible,
                self.alpha == old(self).alpha,
                self.num_conflicts == old(self).num_conflicts,
                self.gc_count == old(self).gc_count,
                self.plays == old(self).plays,
                self.applications == old(self).applications,
                self.depth == old(self).depth,
                self.levels == old(self).levels,
                self.place == old(self).place,
                self.conflict_lens == old(self).conflict_lens,
                self.active_variables == old(self).active_variables,
                self.solution == old(self).solution,
                self.origin == old(self).origin,
                self.base == old(self).base,
            decreases self.clauses@.len() - i,
        {
            let len = self.clauses[i].len();
            let weight: u128 = weigh(len) as u128;
            proof {
                lemma_clause_weight_bound(len as nat);
                assert(self.clauses@[i as int] == clauses0[i as int]);
                assert(clauses0[i as int].wf(vars0.len()));
            }
            let ghost low: int = i * 1_048_576;
            let ghost high: int = low + 1_048_576;
            proof {
                assert(i * 1_048_576 + 1_048_576 == (i + 1) * 1_048_576) by (nonlinear_arith);
                assert((i + 1) * 1_048_576 <= 0x1_0000_0000_0000_0000 * 1_048_576) by (nonlinear_arith)
                    requires
                        i + 1 <= 0x1_0000_0000_0000_0000,
                ;
            }
            let mut k: usize = 0;
            while k < len
                invariant
                    k <= len,
                    i < self.clauses@.len(),
                    len == self.clauses@[i as int].lits().len(),
                    lits_in_range(self.clauses@[i as int].lits(), n as nat),
                    distinct_vars(self.clauses@[i as int].lits()),
                    lo@.len() == n,
                    hi@.len() == n,
                    weight <= 1_048_576,
                    weight == clause_weight(len as nat),
                    f == lits_of(clauses0),
                    f.len() == clauses0.len(),
                    i < f.len(),
                    f[i as int] == self.clauses@[i as int].lits(),
                    forall|u: int|
                        0 <= u < n ==> #[trigger] lo@[u] == weight_of(f, i as int, u, false) + (if signed_upto(
                            f[i as int],
                            u,
                            false,
                            k as int,
                        ) {
                            weight as int
                        } else {
                            0int
                        }),
                    forall|u: int|
                        0 <= u < n ==> #[trigger] hi@[u] == weight_of(f, i as int, u, true) + (if signed_upto(
                            f[i as int],
                            u,
                            true,
                            k as int,
                        ) {
                            weight as int
                        } else {
                            0int
                        }),
                    high == low + 1_048_576,
                    0 <= low,
                    high <= 0x1_0000_0000_0000_0000 * 1_048_576,
                    forall|u: int| 0 <= u < n ==> #[trigger] lo@[u] <= high,
                    forall|u: int| 0 <= u < n ==> #[trigger] hi@[u] <= high,
                    forall|j: int|
                        k <= j < len ==> lo@[(#[trigger] self.clauses@[i as int].lits()[j]).var()] <= low
                            && hi@[self.clauses@[i as int].lits()[j].var()] <= low,
                decreases len - k,
            {
                let (id, negated) = self.clauses[i].literals[k].disassemble();
                let x = id.to_usize();
                let ghost lits = self.clauses@[i as int].lits();
                let ghost lo0 = lo@;
                let ghost hi0 = hi@;
                proof {
                    assert(lits[k as int].var() == x);
                }
                if negated {
                    let sum = hi[x] + weight;
                    hi.set(x, sum);
                } else {
                    let sum = lo[x] + weight;
                    lo.set(x, sum);
                }
                proof {
                    assert forall|u: int, m: bool| 0 <= u < n implies signed_upto(lits, u, m, k + 1) == (
                    signed_upto(lits, u, m, k as int) || (u == x && m == negated)) by {
                        if signed_upto(lits, u, m, k + 1) {
                            let j = choose|j: int|
                                0 <= j < k + 1 && j < lits.len() && (#[trigger] lits[j]).var() == u
                                    && lits[j].spec_negated() == m;
                            if j < k {
                                assert(signed_upto(lits, u, m, k as int));
                            }
                        }
                        if signed_upto(lits, u, m, k as int) {
                            let j = choose|j: int|
                                0 <= j < k && j < lits.len() && (#[trigger] lits[j]).var() == u
                                    && lits[j].spec_negated() == m;
                            assert(j < k + 1);
                        }
                        if u == x && m == negated {
                            assert(lits[k as int].var() == u && lits[k as int].spec_negated() == m);
                        }
                    }
                    assert forall|m: bool| !signed_upto(lits, x as int, m, k as int) by {
                        if signed_upto(lits, x as int, m, k as int) {
                            let j = choose|j: int|
                                0 <= j < k && j < lits.len() && (#[trigger] lits[j]).var() == x
                                    && lits[j].spec_negated() == m;
                            assert(lits[j].var() != lits[k as int].var());
                        }
                    }
                    assert forall|u: int| 0 <= u < n implies #[trigger] lo@[u] == weight_of(
                        f,
                        i as int,
                        u,
                        false,
                    ) + (if signed_upto(f[i as int], u, false, k + 1) {
                        weight as int
                    } else {
                        0int
                    }) by {
                        assert(lo0[u] == weight_of(f, i as int, u, false) + (if signed_upto(
                            f[i as int],
                            u,
                            false,
                            k as int,
                        ) {
                            weight as int
                        } else {
                            0int
                        }));
                    }
                    assert forall|u: int| 0 <= u < n implies #[trigger] hi@[u] == weight_of(
                        f,
                        i as int,
                        u,
                        true,
                    ) + (if signed_upto(f[i as int], u, true, k + 1) {
                        weight as int
                    } else {
                        0int
                    }) by {
                        assert(hi0[u] == weight_of(f, i as int, u, true) + (if signed_upto(
                            f[i as int],
                            u,
                            true,
                            k as int,
                        ) {
                            weight as int
                        } else {
                            0int
                        }));
                    }
                    assert forall|j: int| k + 1 <= j < len implies lo@[(#[trigger] lits[j]).var()] <= low
                        && hi@[lits[j].var()] <= low by {
                        assert(lits[k as int].var() != lits[j].var());
                        assert(lo0[lits[j].var()] <= low && hi0[lits[j].var()] <= low);
                    }
                    assert forall|u: int| 0 <= u < n implies #[trigger] lo@[u] <= high by {
                        if u != x {
                            assert(lo0[u] <= high);
                        }
                    }
                    assert forall|u: int| 0 <= u < n implies #[trigger] hi@[u] <= high by {
                        if u != x {
                            assert(hi0[u] <= high);
                        }
                    }
                }
                k += 1;
            }
            proof {
                assert forall|u: int| 0 <= u < n implies #[trigger] lo@[u] == weight_of(f, i + 1, u, false) by {
                    assert(f[i as int].len() == len);
                }
                assert forall|u: int| 0 <= u < n implies #[trigger] hi@[u] == weight_of(f, i + 1, u, true) by {
                    assert(f[i as int].len() == len);
                }
                assert forall|u: int| 0 <= u < n implies #[trigger] lo@[u] <= (i + 1) * 1_048_576 by {
                    assert(lo@[u] <= high);
                }
                assert forall|u: int| 0 <= u < n implies #[trigger] hi@[u] <= (i + 1) * 1_048_576 by {
                    assert(hi@[u] <= high);
                }
            }
            let ghost vars1 = self.variables@;
            let ghost clauses1 = self.clauses@;
            proof {
                assert(unlinked(vars1, i as usize));
                assert forall|j: int| 0 <= j < clauses1[i as int].lits().len() implies crate::cnf::valuation::lit_list(
                    vars1,
                    #[trigger] clauses1[i as int].lits()[j],
                ).len() < usize::MAX by {
                    let l = clauses1[i as int].lits()[j];
                    assert(vars1[l.var()].watchlist(l.spec_negated()).len() <= i);
                }
            }
            self.clauses[i].initialize_watched(i, &mut self.variables);
            proof {
                let vars2 = self.variables@;
                let clauses2 = self.clauses@;
                assert(clauses2 =~= clauses1.update(i as int, clauses2[i as int]));
                lemma_watch_after_apply(vars1, vars2, clauses1, clauses2, i);
                assert forall|x: usize| i + 1 <= x implies #[trigger] unlinked(vars2, x) by {
                    assert(unlinked(vars1, x));
                    assert forall|u: int, m: bool| 0 <= u < vars2.len() implies !#[trigger] holds(
                        vars2,
                        x,
                        u,
                        m,
                    ) by {
                        assert(holds(vars1, x, u, m) == holds(vars2, x, u, m));
                    }
                }
                assert forall|u: int| 0 <= u < vars0.len() implies (#[trigger] vars2[u]).same_state(
                    &vars0[u],
                ) by {
                    assert(vars2[u].same_state(&vars1[u]));
                    assert(vars1[u].same_state(&vars0[u]));
                }
                assert forall|u: int, m: bool| 0 <= u < vars0.len() implies (#[trigger] vars2[u].watchlist(
                    m,
                )).len() <= i + 1 by {
                    assert(vars1[u].watchlist(m).len() <= i);
                }
                assert forall|c: int| 0 <= c < i + 1 implies (#[trigger] clauses2[c]).linked(
                    c as usize,
                    vars2,
                ) by {
                    if c < i {
                        assert(clauses2[c] == clauses1[c]);
                        assert(clauses1[c].wf(vars1.len()));
                        assert forall|v: int, n: bool| 0 <= v < vars1.len() implies #[trigger] holds(
                            vars1,
                            c as usize,
                            v,
                            n,
                        ) == holds(vars2, c as usize, v, n) by {
                        }
                        lemma_home_same(clauses1[c], clauses1[c], c as usize, vars1, vars2);
                    } else {
                        // The clause mentions open variables only, so it goes into the lists.
                        let clause = clauses2[c];
                        assert(clause.lits() == clauses0[c].lits());
                        assert(clause.lits()[clause.w0()].var() < vars0.len());
                        assert(!vars0[clause.lits()[clause.w0()].var()].assigned());
                        assert(vars1[clause.lit0().var()].same_state(&vars0[clause.lit0().var()]));
                    }
                }
            }
            i += 1;
        }
        // The largest weight among the open variables.
        let ghost vars3 = self.variables@;
        let ghost clauses3 = self.clauses@;
        proof {
            assert forall|c: int| 0 <= c < clauses3.len() implies (#[trigger] clauses3[c]).linked(
                c as usize,
                vars3,
            ) && clauses3[c].wf(vars3.len()) by {
            }
        }
        let mut most: u128 = 0;
        let mut v: usize = 0;
        proof {
            assert(self.clauses@.len() * 1_048_576 <= 0x1_0000_0000_0000_0000 * 1_048_576) by (nonlinear_arith)
                requires
                    self.clauses@.len() <= 0x1_0000_0000_0000_0000,
            ;
        }
        let ghost cap = self.clauses@.len() * 1_048_576;
        while v < n
            invariant
                v <= n,
                lo@.len() == n,
                hi@.len() == n,
                n == self.variables@.len(),
                self.variables@ == vars3,
                most == 0 || exists|u: int|
                    0 <= u < v && !(#[trigger] vars3[u]).assigned() && lo@[u] + hi@[u] == most,
                cap <= 0x1_0000_0000_0000_0000 * 1_048_576,
                forall|u: int| 0 <= u < n ==> #[trigger] lo@[u] <= cap,
                forall|u: int| 0 <= u < n ==> #[trigger] hi@[u] <= cap,
                most <= 2 * cap,
                forall|u: int|
                    0 <= u < v && !(#[trigger] self.variables@[u]).assigned() ==> lo@[u] + hi@[u] <= most,
            decreases n - v,
        {
            let ghost most0 = most;
            if !self.variables[v].has_value() {
                let raw = lo[v] + hi[v];
                if raw > most {
                    most = raw;
                }
            }
            proof {
                if most != 0 {
                    if most == most0 {
                        let u = choose|u: int|
                            0 <= u < v && !(#[trigger] vars3[u]).assigned() && lo@[u] + hi@[u] == most;
                        assert(0 <= u < v + 1);
                    } else {
                        assert(!vars3[v as int].assigned() && lo@[v as int] + hi@[v as int] == most);
                    }
                }
            }
            v += 1;
        }
        let ghost lo3 = lo@;
        let ghost hi3 = hi@;
        let mut v: usize = 0;
        while v < n
            invariant
                v <= n,
                lo@.len() == n,
                hi@.len() == n,
                n == vars3.len(),
                self.variables@.len() == n,
                cap <= 0x1_0000_0000_0000_0000 * 1_048_576,
                forall|u: int| 0 <= u < n ==> #[trigger] lo@[u] <= cap,
                forall|u: int| 0 <= u < n ==> #[trigger] hi@[u] <= cap,
                most <= 2 * cap,
                lo@ == lo3,
                hi@ == hi3,
                forall|u: int| v <= u < n ==> (#[trigger] self.variables@[u]).q == vars3[u].q,
                forall|u: int|
                    0 <= u < v && vars3[u].assigned() ==> (#[trigger] self.variables@[u]).q == vars3[u].q,
                forall|u: int|
                    0 <= u < v && !vars3[u].assigned() ==> (#[trigger] self.variables@[u]).value == (lo3[u]
                        < hi3[u]) && (most > 0 ==> self.variables@[u].q == ((lo3[u] + hi3[u])
                        * 1_000_000_000_000) as int / (most as int)),
                forall|u: int|
                    0 <= u < n && !(#[trigger] vars3[u]).assigned() ==> lo@[u] + hi@[u] <= most,
                forall|u: int|
                    0 <= u < n ==> (#[trigger] self.variables@[u]).depth == vars3[u].depth
                        && self.variables@[u].ante == vars3[u].ante && self.variables@[u].same_watchlists(
                        &vars3[u],
                    ) && self.variables@[u].q <= Q_ONE && (vars3[u].assigned()
                        ==> self.variables@[u].value == vars3[u].value),
                forall|u: int| 0 <= u < n ==> (#[trigger] vars3[u]).q <= Q_ONE,
                self.clauses@ == clauses3,
                self.variable_names == old(self).variable_names,
                self.last_conflict == old(self).last_conflict,
                self.irreducible == old(self).irreducible,
                self.alpha == old(self).alpha,
                self.num_conflicts == old(self).num_conflicts,
                self.gc_count == old(self).gc_count,
                self.plays == old(self).plays,
                self.applications == old(self).applications,
                self.depth == old(self).depth,
                self.levels == old(self).levels,
                self.place == old(self).place,
                self.conflict_lens == old(self).conflict_lens,
                self.active_variables == old(self).active_variables,
                self.solution == old(self).solution,
                self.origin == old(self).origin,
                self.base == old(self).base,
            decreases n - v,
        {
            if !self.variables[v].has_value() {
                let raw = lo[v] + hi[v];
                let ghost vars4 = self.variables@;
                self.variables[v].set_phase(lo[v] < hi[v]);
                let ghost vars5 = self.variables@;
                if most > 0 {
                    proof {
                        assert(raw * 1_000_000_000_000 <= most * 1_000_000_000_000) by (nonlinear_arith)
                            requires
                                raw <= most,
                        ;
                        assert(most * 1_000_000_000_000 <= 2 * (0x1_0000_0000_0000_0000 * 1_048_576)
                            * 1_000_000_000_000) by (nonlinear_arith)
                            requires
                                most <= 2 * (0x1_0000_0000_0000_0000 * 1_048_576),
                        ;
                        vstd::arithmetic::div_mod::lemma_div_is_ordered(
                            raw as int * 1_000_000_000_000,
                            most as int * 1_000_000_000_000,
                            most as int,
                        );
                        vstd::arithmetic::div_mod::lemma_div_multiples_vanish(
                            1_000_000_000_000,
                            most as int,
                        );
                        assert(most as int * 1_000_000_000_000 == 1_000_000_000_000 * most as int) by (nonlinear_arith);
                    }
                    let scaled: u128 = raw * 1_000_000_000_000 / most;
                    *self.variables[v].q_mut() = scaled as u64;
                }
                proof {
                    assert forall|u: int| 0 <= u < n implies (#[trigger] self.variables@[u]).depth
                        == vars3[u].depth && self.variables@[u].ante == vars3[u].ante
                        && self.variables@[u].same_watchlists(&vars3[u]) && self.variables@[u].q
                        <= Q_ONE && (vars3[u].assigned() ==> self.variables@[u].value
                        == vars3[u].value) by {
                        if u != v {
                            assert(vars5[u] == vars4[u]);
                            if most > 0 {
                                assert(self.variables@[u] == vars5[u]);
                            }
                        }
                    }
                    assert forall|u: int| 0 <= u < n && u != v implies (#[trigger] self.variables@[u]) == vars4[u] by {
                        assert(vars5[u] == vars4[u]);
                        if most > 0 {
                            assert(self.variables@[u] == vars5[u]);
                        }
                    }
                    assert(self.variables@[v as int].value == (lo3[v as int] < hi3[v as int]));
                }
            }
            v += 1;
        }
        proof {
            let vars = self.variables@;
            let g = lits_of(self.clauses@);
            assert(g =~= f) by {
                assert forall|c: int| 0 <= c < f.len() implies g[c] == f[c] by {
                    assert(self.clauses@[c].lits() == clauses0[c].lits());
                }
            }
            assert forall|u: int| 0 <= u < n implies (#[trigger] vars[u]).assigned() == vars3[u].assigned() by {
                assert(vars[u].depth == vars3[u].depth);
            }
            assert forall|u: int| 0 <= u < n implies self.weight(u) == lo3[u] + hi3[u] by {
                assert(lo3[u] == weight_of(f, f.len() as int, u, false));
                assert(hi3[u] == weight_of(f, f.len() as int, u, true));
            }
            if most != 0 {
                let u = choose|u: int| 0 <= u < n && !(#[trigger] vars3[u]).assigned() && lo3[u] + hi3[u] == most;
                assert(!vars[u].assigned() && self.weight(u) == most);
            }
            assert forall|u: int| 0 <= u < n && !(#[trigger] vars[u]).assigned() implies self.weight(u) <= most
                && vars[u].value == (weight_of(g, self.clauses@.len() as int, u, false) < weight_of(
                g,
                self.clauses@.len() as int,
                u,
                true,
            )) && (most > 0 ==> vars[u].q == (self.weight(u) * Q_ONE) as int / (most as int)) by {
                assert(!vars3[u].assigned());
                assert(lo3[u] == weight_of(f, f.len() as int, u, false));
                assert(hi3[u] == weight_of(f, f.len() as int, u, true));
            }
            assert(self.seeded(most as nat));
            assert forall|u: int| 0 <= u < n implies (#[trigger] vars[u]).q == vars0[u].q || !vars0[u].assigned() by {
                if vars0[u].assigned() {
                    assert(vars3[u].same_state(&vars0[u]));
                    assert(vars3[u].assigned());
                }
            }
        }
        proof {
            let vars = self.variables@;
            assert forall|u: int| 0 <= u < n implies (#[trigger] vars[u]).same_watchlists(&vars3[u]) by {
            }
            lemma_watch_ok_same_lists(vars3, vars, self.clauses@);
            assert forall|u: int| 0 <= u < vars0.len() implies (#[trigger] vars0[u]).assigned()
                == vars[u].assigned() by {
                assert(vars[u].depth == vars3[u].depth);
                assert(vars3[u].same_state(&vars0[u]));
            }
            super::lemma_count_same(vars0, vars);
            lemma_count_bound(vars);
            assert forall|u: int| 0 <= u < vars.len() && (#[trigger] vars[u]).assigned() implies vars[u].depth.0
                <= 0 && (on_trail(self.applications@, self.place@, u) || vars[u].depth.0 == 0) by {
                assert(vars[u].depth == vars3[u].depth);
                assert(vars3[u].same_state(&vars0[u]));
                assert(vars0[u].assigned());
            }
            assert forall|u: int| 0 <= u < vars0.len() implies (#[trigger] self.variables@[u]).depth
                == vars0[u].depth && (vars0[u].assigned() ==> self.variables@[u].value
                == vars0[u].value) by {
                assert(vars[u].depth == vars3[u].depth);
                assert(vars3[u].same_state(&vars0[u]));
            }
            assert forall|bin: int| self.conflict_lens.count(bin) <= self.num_conflicts by {
            }
            // Every clause is in the lists and watches open literals.
            assert forall|c: int| 0 <= c < self.clauses@.len() implies #[trigger] quiet_at(
                vars,
                self.clauses@,
                c,
            ) by {
                let clause = self.clauses@[c];
                let cid = c as usize;
                assert(clause.linked(cid, vars3));
                assert(clause.wf(vars3.len()));
                let at = set![
                    crate::cnf::watching::place(clause.lit0()),
                    crate::cnf::watching::place(clause.lit1()),
                ];
                assert forall|v: int, n: bool| 0 <= v < vars.len() implies (#[trigger] holds(
                    vars,
                    cid,
                    v,
                    n,
                ) <==> at.contains((v, n))) by {
                    assert(vars[v].same_watchlists(&vars3[v]));
                    assert(holds(vars3, cid, v, n) <==> at.contains((v, n)));
                }
                assert(clause.lits() == clauses0[c].lits());
                let l0 = clause.lits()[clause.w0()];
                let l1 = clause.lits()[clause.w1()];
                assert(!vars0[l0.var()].assigned());
                assert(!vars0[l1.var()].assigned());
                assert(vars[l0.var()].depth == vars3[l0.var()].depth);
                assert(vars3[l0.var()].same_state(&vars0[l0.var()]));
                assert(vars[l1.var()].depth == vars3[l1.var()].depth);
                assert(vars3[l1.var()].same_state(&vars0[l1.var()]));
            }
            if old(self).complete() {
                assert forall|u: int|
                    0 <= u < vars0.len() && (#[trigger] vars0[u]).assigned() && vars0[u].depth.0
                        == 0 implies vars[u].assigned() && vars[u].depth.0 == 0 && vars[u].value
                    == vars0[u].value by {
                    assert(vars[u].depth == vars3[u].depth);
                    assert(vars3[u].same_state(&vars0[u]));
                }
                lemma_covering_kept(
                    self.origin@,
                    self.base@,
                    vars0,
                    vars,
                    clauses0,
                    self.clauses@,
                );
            }
            if old(self).sound() {
                assert forall|u: int|
                    0 <= u < vars.len() && (#[trigger] vars[u]).assigned() && vars[u].depth.0
                        == 0 implies vars0[u].assigned() && vars0[u].depth.0 == 0 && vars0[u].value
                    == vars[u].value by {
                    assert(vars[u].depth == vars3[u].depth);
                    assert(vars3[u].same_state(&vars0[u]));
                }
                lemma_fixed_entailed_kept(self.origin@, vars0, vars);
                assert forall|c: int| 0 <= c < self.clauses@.len() implies entails(
                    self.origin@,
                    vars.len(),
                    (#[trigger] self.clauses@[c]).lits(),
                ) by {
                    assert(self.clauses@[c].lits() == clauses0[c].lits());
                    assert(entails(self.origin@, vars0.len(), clauses0[c].lits()));
                }
            }
        }
    }
}

} // verus!
