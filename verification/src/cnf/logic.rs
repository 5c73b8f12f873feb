use vstd::prelude::*;

use super::{Literal, Variable};

verus! {

/// Whether the literal holds where each variable `v` has the value `m[v]`.
pub open spec fn lit_holds(m: Seq<bool>, lit: Literal) -> bool {
    m[lit.var()] != lit.spec_negated()
}

/// A clause holds where one of its literals does.
pub open spec fn clause_holds(m: Seq<bool>, clause: Seq<Literal>) -> bool {
    exists|k: int| 0 <= k < clause.len() && lit_holds(m, #[trigger] clause[k])
}

/// A formula, a sequence of clauses, holds where each clause does.
pub open spec fn formula_holds(m: Seq<bool>, formula: Seq<Seq<Literal>>) -> bool {
    forall|i: int| 0 <= i < formula.len() ==> clause_holds(m, #[trigger] formula[i])
}

/// The values `m` give every assigned variable the value it is assigned.
pub open(crate) spec fn agrees(m: Seq<bool>, vars: Seq<Variable>) -> bool {
    forall|v: int| 0 <= v < vars.len() && (#[trigger] vars[v]).assigned() ==> m[v] == vars[v].value
}

/// `m` gives the assigned variables their values and makes the formula hold.
pub open(crate) spec fn models(m: Seq<bool>, vars: Seq<Variable>, formula: Seq<Seq<Literal>>) -> bool {
    agrees(m, vars) && formula_holds(m, formula)
}

/// Some values for `n` variables make the formula hold.
pub open spec fn satisfiable(formula: Seq<Seq<Literal>>, n: nat) -> bool {
    exists|m: Seq<bool>| m.len() == n && #[trigger] formula_holds(m, formula)
}

/// Every choice of values that makes the formula hold makes the clause hold.
pub open spec fn entails(formula: Seq<Seq<Literal>>, n: nat, clause: Seq<Literal>) -> bool {
    forall|m: Seq<bool>| m.len() == n && #[trigger] formula_holds(m, formula) ==> clause_holds(m, clause)
}

/// The literals of the clauses as they are stored.
pub open spec fn formula_of(clauses: Seq<Vec<Literal>>) -> Seq<Seq<Literal>> {
    Seq::new(clauses.len(), |i: int| clauses[i]@)
}

/// The two states have the same models: the same values extend the one's
/// assignment and satisfy its clauses as do the other's.
pub open(crate) spec fn same_models(
    va: Seq<Variable>,
    fa: Seq<Seq<Literal>>,
    vb: Seq<Variable>,
    fb: Seq<Seq<Literal>>,
) -> bool {
    forall|m: Seq<bool>| m.len() == va.len() ==> (#[trigger] models(m, va, fa) <==> models(m, vb, fb))
}

/// No values extend the assignment and satisfy the clauses.
pub open(crate) spec fn no_models(vars: Seq<Variable>, formula: Seq<Seq<Literal>>) -> bool {
    forall|m: Seq<bool>| m.len() == vars.len() ==> !#[trigger] models(m, vars, formula)
}

/// Two clauses with the same literals hold together.
pub proof fn lemma_same_set_holds(m: Seq<bool>, a: Seq<Literal>, b: Seq<Literal>)
    requires
        forall|l: Literal| a.contains(l) <==> b.contains(l),
    ensures
        clause_holds(m, a) == clause_holds(m, b),
{
    if clause_holds(m, a) {
        let k = choose|k: int| 0 <= k < a.len() && lit_holds(m, #[trigger] a[k]);
        assert(a.contains(a[k]));
        let j = choose|j: int| 0 <= j < b.len() && b[j] == a[k];
        assert(lit_holds(m, b[j]));
    }
    if clause_holds(m, b) {
        let k = choose|k: int| 0 <= k < b.len() && lit_holds(m, #[trigger] b[k]);
        assert(b.contains(b[k]));
        let j = choose|j: int| 0 <= j < a.len() && a[j] == b[k];
        assert(lit_holds(m, a[j]));
    }
}

/// A clause that holds a variable with both signs holds whatever the values.
pub proof fn lemma_tautology_holds(m: Seq<bool>, clause: Seq<Literal>, i: int, j: int)
    requires
        0 <= i < clause.len(),
        0 <= j < clause.len(),
        clause[i].var() == clause[j].var(),
        clause[i].spec_negated() != clause[j].spec_negated(),
    ensures
        clause_holds(m, clause),
{
    if lit_holds(m, clause[i]) {
    } else {
        assert(lit_holds(m, clause[j]));
    }
}

/// A formula without its clause `i`, the last clause in its place, holds
/// where the other clauses of the formula hold.
pub proof fn lemma_swap_remove_holds(m: Seq<bool>, f: Seq<Seq<Literal>>, i: int)
    requires
        0 <= i < f.len(),
    ensures
        formula_holds(m, f) <==> (clause_holds(m, f[i]) && formula_holds(
            m,
            f.update(i, f.last()).drop_last(),
        )),
{
    let g = f.update(i, f.last()).drop_last();
    if formula_holds(m, f) {
        assert forall|j: int| 0 <= j < g.len() implies clause_holds(m, #[trigger] g[j]) by {
            if j == i {
                assert(g[j] == f[f.len() - 1]);
            } else {
                assert(g[j] == f[j]);
            }
        }
    }
    if clause_holds(m, f[i]) && formula_holds(m, g) {
        assert forall|j: int| 0 <= j < f.len() implies clause_holds(m, #[trigger] f[j]) by {
            if j == i {
            } else if j == f.len() - 1 {
                assert(g[i] == f[j]);
            } else {
                assert(g[j] == f[j]);
            }
        }
    }
}

/// A formula with its clause `i` replaced holds where the new clause and the
/// other clauses hold.
pub proof fn lemma_update_holds(m: Seq<bool>, f: Seq<Seq<Literal>>, i: int, c: Seq<Literal>)
    requires
        0 <= i < f.len(),
    ensures
        formula_holds(m, f.update(i, c)) <==> (clause_holds(m, c) && forall|j: int|
            0 <= j < f.len() && j != i ==> clause_holds(m, #[trigger] f[j])),
{
    let g = f.update(i, c);
    if formula_holds(m, g) {
        assert(g[i] == c);
        assert forall|j: int| 0 <= j < f.len() && j != i implies clause_holds(m, #[trigger] f[j]) by {
            assert(g[j] == f[j]);
        }
    }
    if clause_holds(m, c) && forall|j: int|
        0 <= j < f.len() && j != i ==> clause_holds(m, #[trigger] f[j]) {
        assert forall|j: int| 0 <= j < g.len() implies clause_holds(m, #[trigger] g[j]) by {
            if j != i {
                assert(g[j] == f[j]);
            }
        }
    }
}

} // verus!
