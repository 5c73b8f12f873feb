use vstd::prelude::*;

use super::{Literal, Variable};

verus! {

pub open(crate) spec fn lit_assigned(vars: Seq<Variable>, lit: Literal) -> bool {
    vars[lit.var()].assigned()
}

/// The literal holds under the values that `vars` has assigned.
pub open(crate) spec fn lit_true(vars: Seq<Variable>, lit: Literal) -> bool {
    vars[lit.var()].assigned() && vars[lit.var()].value != lit.spec_negated()
}

/// The literal's variable is assigned the other way.
pub open(crate) spec fn lit_false(vars: Seq<Variable>, lit: Literal) -> bool {
    vars[lit.var()].assigned() && vars[lit.var()].value == lit.spec_negated()
}

/// The depth at which the literal's variable was assigned (the largest id
/// where it was not).
pub open(crate) spec fn lit_depth(vars: Seq<Variable>, lit: Literal) -> usize {
    vars[lit.var()].depth.0
}

/// The clauses that watch this literal.
pub open(crate) spec fn lit_list(vars: Seq<Variable>, lit: Literal) -> Seq<usize> {
    vars[lit.var()].watchlist(lit.spec_negated())
}

/// Two states of the variables that differ at most in who watches what.
pub open(crate) spec fn same_assignment(a: Seq<Variable>, b: Seq<Variable>) -> bool {
    &&& a.len() == b.len()
    &&& forall|v: int| 0 <= v < a.len() ==> (#[trigger] a[v]).same_state(&b[v])
}

/// No variable is assigned deeper than the literal `lit` is.
pub open(crate) spec fn deepest_assigned(vars: Seq<Variable>, lit: Literal) -> bool {
    forall|v: int|
        0 <= v < vars.len() && (#[trigger] vars[v]).assigned() ==> vars[v].depth.0 <= lit_depth(
            vars,
            lit,
        )
}

/// Every variable that is assigned is assigned at depth 0.
pub open(crate) spec fn all_at_zero(vars: Seq<Variable>) -> bool {
    forall|v: int| 0 <= v < vars.len() && (#[trigger] vars[v]).assigned() ==> vars[v].depth.0 == 0
}

/// How far the position `k` lies behind `start`, going round a clause of
/// `len` literals.
pub open(crate) spec fn offset(start: int, k: int, len: int) -> int {
    if k >= start {
        k - start
    } else {
        k + len - start
    }
}

/// The depths of the literals of a clause, in the clause's order.
pub open(crate) spec fn depths_of(vars: Seq<Variable>, lits: Seq<Literal>) -> Seq<usize> {
    Seq::new(lits.len(), |k: int| lit_depth(vars, lits[k]))
}

/// The number of different depths among the literals of a clause.
pub open(crate) spec fn distinct_depths(vars: Seq<Variable>, lits: Seq<Literal>) -> nat {
    depths_of(vars, lits).to_set().len()
}

/// Literals in ascending order of their packed words.
pub open(crate) spec fn sorted(lits: Seq<Literal>) -> bool {
    forall|i: int, j: int| 0 <= i < j < lits.len() ==> lits[i].packed() <= lits[j].packed()
}

/// Each literal's variable is larger than the one before: the clause is
/// sorted and holds no variable twice.
pub open(crate) spec fn ascending(lits: Seq<Literal>) -> bool {
    forall|i: int, j: int| 0 <= i < j < lits.len() ==> lits[i].var() < lits[j].var()
}

/// No variable occurs twice.
pub open(crate) spec fn distinct_vars(lits: Seq<Literal>) -> bool {
    forall|i: int, j: int| 0 <= i < j < lits.len() ==> lits[i].var() != lits[j].var()
}

/// Every literal's variable is below `nvars`.
pub open(crate) spec fn lits_in_range(lits: Seq<Literal>, nvars: nat) -> bool {
    forall|k: int| 0 <= k < lits.len() ==> (#[trigger] lits[k]).var() < nvars
}

/// A clause has no more different depths than literals.
pub proof fn lemma_distinct_depths_bound(vars: Seq<Variable>, lits: Seq<Literal>)
    ensures
        distinct_depths(vars, lits) <= lits.len(),
        lits.len() > 0 ==> distinct_depths(vars, lits) >= 1,
{
    let d = depths_of(vars, lits);
    vstd::seq_lib::seq_to_set_is_finite(d);
    d.lemma_cardinality_of_set();
    if lits.len() > 0 {
        assert(d.to_set().contains(d[0]));
        if d.to_set().len() == 0 {
            d.to_set().lemma_len0_is_empty();
            assert(false);
        }
    }
}

} // verus!
