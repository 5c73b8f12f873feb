use vstd::prelude::*;

use crate::cnf::clause::sort_literals;
use crate::cnf::clause::lemma_same_literals;
use crate::cnf::logic::{
    agrees, clause_holds, formula_holds, formula_of, lemma_same_set_holds, lemma_swap_remove_holds,
    lemma_tautology_holds, lemma_update_holds, lit_holds, models, no_models, same_models,
};
use crate::cnf::valuation::{ascending, lit_false, lit_true, lits_in_range, sorted};
use crate::cnf::{Literal, Variable, VariableId};
use crate::SolverResult;

verus! {

/// Every literal of every clause is over a variable below `nvars`.
pub open(crate) spec fn formula_in_range(formula: Seq<Seq<Literal>>, nvars: nat) -> bool {
    forall|c: int| 0 <= c < formula.len() ==> lits_in_range(#[trigger] formula[c], nvars)
}

/// A clause holds some variable with both signs.
pub open(crate) spec fn tautology(clause: Seq<Literal>) -> bool {
    exists|i: int, j: int|
        #![trigger clause[i], clause[j]]
        0 <= i < clause.len() && 0 <= j < clause.len() && clause[i].var() == clause[j].var()
            && clause[i].spec_negated() != clause[j].spec_negated()
}

/// What one more element adds to the elements of a sequence.
pub proof fn lemma_contains_push(s: Seq<Literal>, x: Literal)
    ensures
        forall|l: Literal| s.push(x).contains(l) <==> (s.contains(l) || l == x),
{
    assert forall|l: Literal| s.push(x).contains(l) <==> (s.contains(l) || l == x) by {
        if s.push(x).contains(l) {
            let k = choose|k: int| 0 <= k < s.push(x).len() && s.push(x)[k] == l;
            if k < s.len() {
                assert(s[k] == l);
            }
        }
        if s.contains(l) {
            let k = choose|k: int| 0 <= k < s.len() && s[k] == l;
            assert(s.push(x)[k] == l);
        }
        if l == x {
            assert(s.push(x)[s.len() as int] == l);
        }
    }
}

/// What one more element adds, for one literal.
pub proof fn lemma_contains_push_one(s: Seq<Literal>, x: Literal, l: Literal)
    ensures
        s.push(x).contains(l) <==> (s.contains(l) || l == x),
{
    lemma_contains_push(s, x);
}

/// A sorted clause whose first `i` literals hold no variable with both signs
/// holds none among its first `i + 1` either, if the next literal repeats the
/// one before it or is over a larger variable.
pub proof fn lemma_no_tautology_step(given: Seq<Literal>, i: int)
    requires
        1 <= i < given.len(),
        sorted(given),
        !tautology(given.take(i)),
        given[i] == given[i - 1] || given[i - 1].var() < given[i].var(),
    ensures
        !tautology(given.take(i + 1)),
{
    let t = given.take(i + 1);
    let p = given.take(i);
    if tautology(t) {
        let (a, b) = choose|a: int, b: int|
            0 <= a < t.len() && 0 <= b < t.len() && t[a].var() == t[b].var() && t[a].spec_negated()
                != t[b].spec_negated();
        if given[i] == given[i - 1] {
            let aa = if a == i { i - 1 } else { a };
            let bb = if b == i { i - 1 } else { b };
            assert(p[aa] == t[a]);
            assert(p[bb] == t[b]);
            assert(tautology(p));
        } else if a == i || b == i {
            let o = if a == i { b } else { a };
            assert(o != i);
            assert(given[o].packed() <= given[i - 1].packed());
        } else {
            assert(p[a] == t[a]);
            assert(p[b] == t[b]);
            assert(tautology(p));
        }
    }
}

/// Takes the repeated literals out of a sorted clause. Gives up and returns
/// `true` where the clause holds a variable with both signs; what is left in
/// the clause is then of no use.
pub fn dedup_clause(clause: &mut Vec<Literal>) -> (both_signs: bool)
    requires
        sorted(old(clause)@),
    ensures
        both_signs == tautology(old(clause)@),
        !both_signs ==> ascending(final(clause)@) && forall|l: Literal|
            final(clause)@.contains(l) <==> old(clause)@.contains(l),
{
    let ghost given = clause@;
    let len = clause.len();
    if len == 0 {
        assert(!tautology(given));
        return false;
    }
    let mut i: usize = 1;
    let mut j: usize = 1;
    let ghost mut kept = clause@.take(1);
    proof {
        assert(given.take(1) =~= kept);
        assert(!tautology(given.take(1)));
    }
    while i < len
        invariant
            1 <= j <= i <= len,
            given == old(clause)@,
            len == given.len(),
            clause.len() == len,
            sorted(given),
            forall|k: int| i <= k < len ==> clause@[k] == given[k],
            kept == clause@.take(j as int),
            kept[j - 1] == given[i - 1],
            ascending(kept),
            forall|l: Literal| kept.contains(l) <==> given.take(i as int).contains(l),
            !tautology(given.take(i as int)),
        decreases len - i,
    {
        let current = clause[i];
        let last = clause[j - 1];
        proof {
            assert(given[i - 1].packed() <= given[i as int].packed());
            assert(given.take(i + 1) =~= given.take(i as int).push(given[i as int]));
            lemma_contains_push(given.take(i as int), given[i as int]);
            assert(last == kept[j - 1]);
        }
        if current == last {
            proof {
                lemma_no_tautology_step(given, i as int);
                assert(kept.contains(kept[j - 1]));
                assert forall|l: Literal| kept.contains(l) <==> given.take(i + 1).contains(l) by {
                    lemma_contains_push_one(given.take(i as int), given[i as int], l);
                }
            }
            i += 1;
        } else if current.id() == last.id() {
            proof {
                assert(given[i as int].var() == given[i - 1].var());
                assert(given[i as int].spec_negated() != given[i - 1].spec_negated());
                let (a, b) = (i as int, i - 1);
                assert(0 <= a < given.len() && 0 <= b < given.len() && given[a].var()
                    == given[b].var() && given[a].spec_negated() != given[b].spec_negated());
                assert(tautology(given));
            }
            return true;
        } else {
            proof {
                assert(given[i - 1].var() < given[i as int].var());
                lemma_no_tautology_step(given, i as int);
            }
            let ghost before = clause@;
            if i != j {
                clause[j] = current;
            }
            proof {
                assert(clause@ =~= before.update(j as int, current));
                assert(clause@.take(j + 1) =~= kept.push(current));
                lemma_contains_push(kept, current);
                assert forall|a: int, b: int| 0 <= a < b < kept.push(current).len() implies kept.push(
                    current,
                )[a].var() < kept.push(current)[b].var() by {
                    if b == j {
                        if a < j - 1 {
                            assert(kept[a].var() < kept[j - 1].var());
                        }
                    } else {
                        assert(kept[a].var() < kept[b].var());
                    }
                }
                assert forall|l: Literal| kept.push(current).contains(l) <==> given.take(
                    i + 1,
                ).contains(l) by {
                    lemma_contains_push_one(given.take(i as int), given[i as int], l);
                    lemma_contains_push_one(kept, current, l);
                }
                kept = kept.push(current);
            }
            i += 1;
            j += 1;
        }
    }
    clause.truncate(j);
    proof {
        assert(given.take(len as int) =~= given);
        assert(clause@ =~= kept);
    }
    false
}

/// Cleans every clause up. The clauses are sorted. A literal that occurs more
/// than once in a clause is kept once; a clause that holds a variable with both
/// signs, and so holds whatever the values, is dropped.
pub fn cleanup(clauses: &mut Vec<Vec<Literal>>)
    requires
        forall|c: int| 0 <= c < old(clauses)@.len() ==> sorted(#[trigger] old(clauses)@[c]@),
    ensures
        forall|c: int| 0 <= c < final(clauses)@.len() ==> ascending(#[trigger] final(clauses)@[c]@),
        forall|m: Seq<bool>|
            formula_holds(m, formula_of(old(clauses)@)) <==> formula_holds(
                m,
                formula_of(final(clauses)@),
            ),
        forall|n: nat|
            formula_in_range(formula_of(old(clauses)@), n) ==> formula_in_range(
                formula_of(final(clauses)@),
                n,
            ),
        final(clauses)@.len() <= old(clauses)@.len(),
{
    let ghost given = formula_of(clauses@);
    let mut ci: usize = 0;
    while ci < clauses.len()
        invariant
            ci <= clauses.len(),
            clauses@.len() <= old(clauses)@.len(),
            given == formula_of(old(clauses)@),
            forall|c: int| 0 <= c < ci ==> ascending(#[trigger] clauses@[c]@),
            forall|c: int| ci <= c < clauses@.len() ==> sorted(#[trigger] clauses@[c]@),
            forall|m: Seq<bool>|
                formula_holds(m, given) <==> formula_holds(m, formula_of(clauses@)),
            forall|n: nat|
                formula_in_range(given, n) ==> formula_in_range(formula_of(clauses@), n),
        decreases clauses.len() - ci,
    {
        let ghost before = clauses@;
        let ghost f = formula_of(before);
        let both_signs = dedup_clause(&mut clauses[ci]);
        if both_signs {
            clauses.swap_remove(ci);
            proof {
                let g = formula_of(clauses@);
                assert(g =~= f.update(ci as int, f.last()).drop_last());
                assert forall|m: Seq<bool>| formula_holds(m, given) <==> formula_holds(m, g) by {
                    lemma_swap_remove_holds(m, f, ci as int);
                    let (a, b) = choose|a: int, b: int|
                        0 <= a < f[ci as int].len() && 0 <= b < f[ci as int].len() && f[ci as int][a].var()
                            == f[ci as int][b].var() && f[ci as int][a].spec_negated()
                            != f[ci as int][b].spec_negated();
                    lemma_tautology_holds(m, f[ci as int], a, b);
                }
                assert forall|n: nat| formula_in_range(given, n) implies formula_in_range(g, n) by {
                    assert forall|c: int| 0 <= c < g.len() implies lits_in_range(
                        #[trigger] g[c],
                        n,
                    ) by {
                        if c == ci {
                            assert(g[c] == f[f.len() - 1]);
                        } else {
                            assert(g[c] == f[c]);
                        }
                    }
                }
            }
        } else {
            proof {
                let g = formula_of(clauses@);
                let c0 = f[ci as int];
                let c1 = clauses@[ci as int]@;
                assert(g =~= f.update(ci as int, c1));
                assert forall|m: Seq<bool>| formula_holds(m, given) <==> formula_holds(m, g) by {
                    lemma_same_set_holds(m, c0, c1);
                    lemma_update_holds(m, f, ci as int, c1);
                    assert(f.update(ci as int, c0) =~= f);
                    lemma_update_holds(m, f, ci as int, c0);
                }
                assert forall|n: nat| formula_in_range(given, n) implies formula_in_range(g, n) by {
                    assert forall|c: int| 0 <= c < g.len() implies lits_in_range(
                        #[trigger] g[c],
                        n,
                    ) by {
                        if c == ci {
                            assert(lits_in_range(f[c], n));
                            assert forall|k: int| 0 <= k < c1.len() implies (#[trigger] c1[k]).var()
                                < n by {
                                assert(c1.contains(c1[k]));
                                let w = choose|w: int| 0 <= w < c0.len() && c0[w] == c1[k];
                            }
                        } else {
                            assert(g[c] == f[c]);
                        }
                    }
                }
                assert forall|c: int| ci + 1 <= c < clauses@.len() implies sorted(
                    #[trigger] clauses@[c]@,
                ) by {
                    assert(clauses@[c] == before[c]);
                }
                assert forall|c: int| 0 <= c < ci + 1 implies ascending(#[trigger] clauses@[c]@) by {
                    if c < ci {
                        assert(clauses@[c] == before[c]);
                    }
                }
            }
            ci += 1;
        }
    }
}

/// Ids in ascending order.
pub open(crate) spec fn sorted_ids(ids: Seq<VariableId>) -> bool {
    forall|i: int, j: int| 0 <= i < j < ids.len() ==> ids[i].0 <= ids[j].0
}

/// Sorts ids by their numbers, with the slice method `sort_unstable_by_key` of
/// the standard library. The contract claims what the method documents:
/// afterwards the same ids stand in ascending order.
#[verifier::external_body]
pub(crate) fn sort_ids(ids: &mut Vec<VariableId>)
    ensures
        sorted_ids(final(ids)@),
        final(ids)@.to_multiset() == old(ids)@.to_multiset(),
{
    ids.sort_unstable_by_key(|id| id.0);
}

/// What a sorted copy of ids keeps: which ids occur.
pub proof fn lemma_same_ids(a: Seq<VariableId>, b: Seq<VariableId>)
    requires
        a.to_multiset() == b.to_multiset(),
    ensures
        a.len() == b.len(),
        forall|x: VariableId| a.contains(x) <==> b.contains(x),
{
    a.to_multiset_ensures();
    b.to_multiset_ensures();
    assert forall|x: VariableId| a.contains(x) <==> b.contains(x) by {
        vstd::seq_lib::to_multiset_contains(a, x);
        vstd::seq_lib::to_multiset_contains(b, x);
    }
}

/// The state that the passes before the search keep: every clause is
/// ascending and over the problem's variables; every value that is assigned is
/// assigned at depth 0 without a forcing clause.
pub open(crate) spec fn tidy(vars: Seq<Variable>, clauses: Seq<Vec<Literal>>) -> bool {
    &&& forall|c: int|
        0 <= c < clauses.len() ==> ascending(#[trigger] clauses[c]@) && lits_in_range(
            clauses[c]@,
            vars.len(),
        )
    &&& forall|v: int|
        0 <= v < vars.len() && (#[trigger] vars[v]).assigned() ==> vars[v].depth.0 == 0
            && vars[v].ante == usize::MAX
}

/// From `before` to `after` variables have at most gained values: none has
/// lost or changed its value, and activities and watch lists are as they were.
pub open(crate) spec fn grown(before: Seq<Variable>, after: Seq<Variable>) -> bool {
    &&& after.len() == before.len()
    &&& forall|v: int|
        0 <= v < before.len() ==> (#[trigger] after[v]).same_watchlists(&before[v]) && after[v].q
            == before[v].q && (before[v].assigned() ==> after[v].same_state(&before[v]))
}

/// Every id is below `nvars` and names a variable that is assigned.
pub open(crate) spec fn all_fixed(ids: Seq<VariableId>, vars: Seq<Variable>) -> bool {
    forall|j: int|
        0 <= j < ids.len() ==> (#[trigger] ids[j]).0 < vars.len() && vars[ids[j].0 as int].assigned()
}

/// Every assigned variable that the clause mentions is among `a` or among `b`.
pub open(crate) spec fn fixed_among(
    clause: Seq<Literal>,
    vars: Seq<Variable>,
    a: Seq<VariableId>,
    b: Seq<VariableId>,
) -> bool {
    forall|k: int|
        0 <= k < clause.len() && vars[(#[trigger] clause[k]).var()].assigned() ==> a.contains(
            clause[k].spec_id(),
        ) || b.contains(clause[k].spec_id())
}

/// Values that agree with the assignment make a literal hold exactly if the
/// assignment does, where the literal's variable is assigned.
pub proof fn lemma_agrees_lit(m: Seq<bool>, vars: Seq<Variable>, lit: Literal)
    requires
        agrees(m, vars),
        lit.var() < vars.len(),
    ensures
        lit_true(vars, lit) ==> lit_holds(m, lit),
        lit_false(vars, lit) ==> !lit_holds(m, lit),
{
    if vars[lit.var()].assigned() {
        assert(m[lit.var()] == vars[lit.var()].value);
    }
}

/// Goes through an ascending clause and the sorted ids of fixed variables side
/// by side. Returns `true` at the first literal that a fixed variable makes
/// true; what is left in the clause is then of no use. Otherwise takes out
/// the literals over the fixed variables, all of them false.
pub fn reduce_clause(clause: &mut Vec<Literal>, variables: &Vec<Variable>, ids: &Vec<VariableId>) -> (sat: bool)
    requires
        ascending(old(clause)@),
        lits_in_range(old(clause)@, variables@.len()),
        sorted_ids(ids@),
        all_fixed(ids@, variables@),
    ensures
        sat ==> exists|k: int|
            0 <= k < old(clause)@.len() && lit_true(variables@, #[trigger] old(clause)@[k]),
        !sat ==> {
            &&& ascending(final(clause)@)
            &&& final(clause)@.len() <= old(clause)@.len()
            &&& forall|l: Literal|
                final(clause)@.contains(l) <==> (old(clause)@.contains(l) && !ids@.contains(
                    l.spec_id(),
                ))
            &&& forall|k: int|
                0 <= k < old(clause)@.len() && ids@.contains((#[trigger] old(clause)@[k]).spec_id())
                    ==> lit_false(variables@, old(clause)@[k])
        },
{
    let ghost given = clause@;
    let len = clause.len();
    let mut i: usize = 0;
    let mut k: usize = 0;
    let mut j: usize = 0;
    let ghost mut kept = Seq::<Literal>::empty();
    proof {
        assert(clause@.take(0) =~= kept);
        assert(given.take(0) =~= Seq::<Literal>::empty());
    }
    while i < len && j < ids.len()
        invariant
            k <= i <= len,
            j <= ids.len(),
            len == given.len(),
            given == old(clause)@,
            clause.len() == len,
            ascending(given),
            lits_in_range(given, variables@.len()),
            sorted_ids(ids@),
            all_fixed(ids@, variables@),
            forall|x: int| i <= x < len ==> clause@[x] == given[x],
            k == i ==> clause@ == given,
            kept == clause@.take(k as int),
            ascending(kept),
            forall|l: Literal|
                kept.contains(l) <==> (given.take(i as int).contains(l) && !ids@.contains(
                    l.spec_id(),
                )),
            forall|x: int|
                0 <= x < i && ids@.contains((#[trigger] given[x]).spec_id()) ==> lit_false(
                    variables@,
                    given[x],
                ),
            forall|y: int| 0 <= y < j && i < len ==> (#[trigger] ids@[y]).0 < given[i as int].var(),
        decreases (len - i) + (ids.len() - j),
    {
        let lit = clause[i];
        let id = lit.id().to_usize();
        let fixed = ids[j].to_usize();
        proof {
            assert(given.take(i + 1) =~= given.take(i as int).push(given[i as int]));
            lemma_contains_push(given.take(i as int), given[i as int]);
        }
        if id < fixed {
            let ghost before = clause@;
            if i != k {
                clause[k] = lit;
            }
            proof {
                assert(clause@ =~= before.update(k as int, lit));
                assert(clause@.take(k + 1) =~= kept.push(lit));
                lemma_contains_push(kept, lit);
                assert(!ids@.contains(lit.spec_id())) by {
                    if ids@.contains(lit.spec_id()) {
                        let y = choose|y: int| 0 <= y < ids@.len() && ids@[y] == lit.spec_id();
                        if y < j {
                            assert(ids@[y].0 < given[i as int].var());
                        } else {
                            assert(ids@[j as int].0 <= ids@[y].0);
                        }
                    }
                }
                assert forall|a: int, b: int| 0 <= a < b < kept.push(lit).len() implies kept.push(
                    lit,
                )[a].var() < kept.push(lit)[b].var() by {
                    if b == k {
                        assert(kept.contains(kept[a]));
                        let x = choose|x: int|
                            0 <= x < given.take(i as int).len() && given.take(i as int)[x]
                                == kept[a];
                        assert(given[x].var() < given[i as int].var());
                    } else {
                        assert(kept[a].var() < kept[b].var());
                    }
                }
                assert forall|l: Literal|
                    kept.push(lit).contains(l) <==> (given.take(i + 1).contains(l)
                        && !ids@.contains(l.spec_id())) by {
                    lemma_contains_push_one(kept, lit, l);
                    lemma_contains_push_one(given.take(i as int), given[i as int], l);
                }
                assert forall|y: int| 0 <= y < j && i + 1 < len implies (#[trigger] ids@[y]).0
                    < given[i + 1].var() by {
                    assert(ids@[y].0 < given[i as int].var());
                    assert(given[i as int].var() < given[i + 1].var());
                }
                kept = kept.push(lit);
            }
            i += 1;
            k += 1;
        } else if id > fixed {
            j += 1;
        } else {
            proof {
                assert(ids@[j as int] == lit.spec_id());
                assert(ids@.contains(lit.spec_id()));
            }
            if lit.negated() != variables[fixed].get_value() {
                proof {
                    assert(lit_true(variables@, given[i as int]));
                }
                return true;
            }
            proof {
                assert(lit_false(variables@, given[i as int]));
                lemma_contains_push(given.take(i as int), given[i as int]);
                assert forall|l: Literal|
                    kept.contains(l) <==> (given.take(i + 1).contains(l) && !ids@.contains(
                        l.spec_id(),
                    )) by {
                    lemma_contains_push_one(given.take(i as int), given[i as int], l);
                }
                assert forall|y: int| 0 <= y < j && i + 1 < len implies (#[trigger] ids@[y]).0
                    < given[i + 1].var() by {
                    assert(ids@[y].0 < given[i as int].var());
                    assert(given[i as int].var() < given[i + 1].var());
                }
            }
            i += 1;
        }
    }
    proof {
        // What is left of the clause lies above every fixed id.
        assert forall|x: int| i <= x < len implies !ids@.contains((#[trigger] given[x]).spec_id()) by {
            if ids@.contains(given[x].spec_id()) {
                let y = choose|y: int| 0 <= y < ids@.len() && ids@[y] == given[x].spec_id();
                assert(j == ids.len());
                assert(ids@[y].0 < given[i as int].var());
                if i < x {
                    assert(given[i as int].var() < given[x].var());
                }
            }
        }
    }
    if i != k {
        while i < len
            invariant
                k < i <= len,
                len == given.len(),
                given == old(clause)@,
                clause.len() == len,
                ascending(given),
                forall|x: int| i <= x < len ==> clause@[x] == given[x],
                forall|x: int| i <= x < len ==> !ids@.contains((#[trigger] given[x]).spec_id()),
                kept == clause@.take(k as int),
                ascending(kept),
                forall|l: Literal|
                    kept.contains(l) <==> (given.take(i as int).contains(l) && !ids@.contains(
                        l.spec_id(),
                    )),
                forall|x: int|
                    0 <= x < i && ids@.contains((#[trigger] given[x]).spec_id()) ==> lit_false(
                        variables@,
                        given[x],
                    ),
            decreases len - i,
        {
            let lit = clause[i];
            let ghost before = clause@;
            clause[k] = lit;
            proof {
                assert(given.take(i + 1) =~= given.take(i as int).push(given[i as int]));
                lemma_contains_push(given.take(i as int), given[i as int]);
                assert(clause@ =~= before.update(k as int, lit));
                assert(clause@.take(k + 1) =~= kept.push(lit));
                lemma_contains_push(kept, lit);
                assert forall|a: int, b: int| 0 <= a < b < kept.push(lit).len() implies kept.push(
                    lit,
                )[a].var() < kept.push(lit)[b].var() by {
                    if b == k {
                        assert(kept.contains(kept[a]));
                        let x = choose|x: int|
                            0 <= x < given.take(i as int).len() && given.take(i as int)[x]
                                == kept[a];
                        assert(given[x].var() < given[i as int].var());
                    } else {
                        assert(kept[a].var() < kept[b].var());
                    }
                }
                assert forall|l: Literal|
                    kept.push(lit).contains(l) <==> (given.take(i + 1).contains(l)
                        && !ids@.contains(l.spec_id())) by {
                    lemma_contains_push_one(kept, lit, l);
                    lemma_contains_push_one(given.take(i as int), given[i as int], l);
                }
                kept = kept.push(lit);
            }
            i += 1;
            k += 1;
        }
        clause.truncate(k);
        proof {
            assert(given.take(len as int) =~= given);
            assert(clause@ =~= kept);
        }
    } else {
        proof {
            // Nothing was taken out, so the clause is as it was.
            assert(clause@ =~= given);
            assert forall|l: Literal|
                given.contains(l) <==> (given.contains(l) && !ids@.contains(l.spec_id())) by {
                if given.contains(l) {
                    let x = choose|x: int| 0 <= x < given.len() && given[x] == l;
                    if x < i {
                        assert(given.take(i as int)[x] == l);
                        assert(given.take(i as int).contains(l));
                        assert(kept.contains(l));
                    }
                }
            }
        }
    }
    false
}

/// Under values that agree with the assignment, a clause holds exactly if
/// what `reduce_clause` has left of it holds.
pub proof fn lemma_reduced_holds(
    m: Seq<bool>,
    vars: Seq<Variable>,
    given: Seq<Literal>,
    left: Seq<Literal>,
    ids: Seq<VariableId>,
)
    requires
        agrees(m, vars),
        lits_in_range(given, vars.len()),
        forall|l: Literal| left.contains(l) <==> (given.contains(l) && !ids.contains(l.spec_id())),
        forall|k: int|
            0 <= k < given.len() && ids.contains((#[trigger] given[k]).spec_id()) ==> lit_false(
                vars,
                given[k],
            ),
    ensures
        clause_holds(m, given) == clause_holds(m, left),
{
    if clause_holds(m, given) {
        let k = choose|k: int| 0 <= k < given.len() && lit_holds(m, #[trigger] given[k]);
        lemma_agrees_lit(m, vars, given[k]);
        assert(given.contains(given[k]));
        assert(left.contains(given[k]));
        let j = choose|j: int| 0 <= j < left.len() && left[j] == given[k];
        assert(lit_holds(m, left[j]));
    }
    if clause_holds(m, left) {
        let k = choose|k: int| 0 <= k < left.len() && lit_holds(m, #[trigger] left[k]);
        assert(left.contains(left[k]));
        let j = choose|j: int| 0 <= j < given.len() && given[j] == left[k];
        assert(lit_holds(m, given[j]));
    }
}

/// Replacing a clause by one that holds under the same values that agree with
/// the assignment keeps the models.
pub proof fn lemma_replace_keeps_models(
    vars: Seq<Variable>,
    f: Seq<Seq<Literal>>,
    i: int,
    c: Seq<Literal>,
)
    requires
        0 <= i < f.len(),
        forall|m: Seq<bool>|
            m.len() == vars.len() && agrees(m, vars) ==> (clause_holds(m, f[i]) <==> #[trigger] clause_holds(
                m,
                c,
            )),
    ensures
        same_models(vars, f, vars, f.update(i, c)),
{
    assert forall|m: Seq<bool>| m.len() == vars.len() implies (#[trigger] models(m, vars, f)
        <==> models(m, vars, f.update(i, c))) by {
        lemma_update_holds(m, f, i, c);
        assert(f.update(i, f[i]) =~= f);
        lemma_update_holds(m, f, i, f[i]);
        if agrees(m, vars) {
            assert(clause_holds(m, f[i]) <==> clause_holds(m, c));
        }
    }
}

/// Dropping a clause that holds under all values that agree with the
/// assignment keeps the models.
pub proof fn lemma_drop_keeps_models(vars: Seq<Variable>, f: Seq<Seq<Literal>>, i: int)
    requires
        0 <= i < f.len(),
        forall|m: Seq<bool>|
            m.len() == vars.len() && agrees(m, vars) ==> #[trigger] clause_holds(m, f[i]),
    ensures
        same_models(vars, f, vars, f.update(i, f.last()).drop_last()),
{
    assert forall|m: Seq<bool>| m.len() == vars.len() implies (#[trigger] models(m, vars, f)
        <==> models(m, vars, f.update(i, f.last()).drop_last())) by {
        lemma_swap_remove_holds(m, f, i);
        if agrees(m, vars) {
            assert(clause_holds(m, f[i]));
        }
    }
}

/// A clause that fails under all values that agree with the assignment
/// leaves no models.
pub proof fn lemma_failing_clause(vars: Seq<Variable>, f: Seq<Seq<Literal>>, i: int)
    requires
        0 <= i < f.len(),
        forall|m: Seq<bool>|
            m.len() == vars.len() && agrees(m, vars) ==> !#[trigger] clause_holds(m, f[i]),
    ensures
        no_models(vars, f),
{
    assert forall|m: Seq<bool>| m.len() == vars.len() implies !#[trigger] models(m, vars, f) by {
        if agrees(m, vars) {
            assert(!clause_holds(m, f[i]));
        }
    }
}

/// Having the same models carries over two steps.
pub proof fn lemma_same_models_chain(
    va: Seq<Variable>,
    fa: Seq<Seq<Literal>>,
    vb: Seq<Variable>,
    fb: Seq<Seq<Literal>>,
    vc: Seq<Variable>,
    fc: Seq<Seq<Literal>>,
)
    requires
        va.len() == vb.len(),
        same_models(va, fa, vb, fb),
        same_models(vb, fb, vc, fc) || no_models(vb, fb),
    ensures
        same_models(vb, fb, vc, fc) ==> same_models(va, fa, vc, fc),
        no_models(vb, fb) ==> no_models(va, fa),
{
    if same_models(vb, fb, vc, fc) {
        assert forall|m: Seq<bool>| m.len() == va.len() implies (#[trigger] models(m, va, fa)
            <==> models(m, vc, fc)) by {
            assert(models(m, va, fa) <==> models(m, vb, fb));
            assert(models(m, vb, fb) <==> models(m, vc, fc));
        }
    }
    if no_models(vb, fb) {
        assert forall|m: Seq<bool>| m.len() == va.len() implies !#[trigger] models(m, va, fa) by {
            assert(models(m, va, fa) <==> models(m, vb, fb));
        }
    }
}

/// Takes the clause at `index`, which has one literal, out of the clauses.
/// Where the literal's variable is open it is assigned at depth 0 so that the
/// literal holds, and noted in `unaries`. Where it is assigned the other way
/// the problem has no model.
fn extract_unary_clause(
    variables: &mut Vec<Variable>,
    clauses: &mut Vec<Vec<Literal>>,
    unaries: &mut Vec<VariableId>,
    index: usize,
) -> (r: Option<SolverResult>)
    requires
        index < old(clauses)@.len(),
        old(clauses)@[index as int]@.len() == 1,
        tidy(old(variables)@, old(clauses)@),
        all_fixed(old(unaries)@, old(variables)@),
    ensures
        r == None::<SolverResult> || r == Some(SolverResult::Unsat),
        r == Some(SolverResult::Unsat) ==> no_models(old(variables)@, formula_of(old(clauses)@)),
        final(variables)@.len() == old(variables)@.len(),
        final(clauses)@.len() <= old(clauses)@.len(),
        r == None::<SolverResult> ==> {
            &&& same_models(
                old(variables)@,
                formula_of(old(clauses)@),
                final(variables)@,
                formula_of(final(clauses)@),
            )
            &&& final(clauses)@ == old(clauses)@.update(index as int, old(clauses)@.last()).drop_last()
            &&& grown(old(variables)@, final(variables)@)
            &&& tidy(final(variables)@, final(clauses)@)
            &&& all_fixed(final(unaries)@, final(variables)@)
            &&& (final(unaries)@ == old(unaries)@ || final(unaries)@ == old(unaries)@.push(
                old(clauses)@[index as int]@[0].spec_id(),
            ))
            &&& forall|v: int|
                0 <= v < final(variables)@.len() && (#[trigger] final(variables)@[v]).assigned()
                    ==> old(variables)@[v].assigned() || final(unaries)@.contains(
                    VariableId(v as usize),
                )
        },
{
    let ghost vars0 = variables@;
    let ghost f = formula_of(clauses@);
    let lit = clauses[index][0];
    let x = lit.id().to_usize();
    assert(f[index as int] == clauses@[index as int]@);
    assert(f[index as int][0] == lit);
    assert(lit.var() < vars0.len());
    if let Some(val) = variables[x].value() {
        if val == lit.negated() {
            proof {
                assert forall|m: Seq<bool>|
                    m.len() == vars0.len() && agrees(m, vars0) implies !#[trigger] clause_holds(
                    m,
                    f[index as int],
                ) by {
                    lemma_agrees_lit(m, vars0, lit);
                }
                lemma_failing_clause(vars0, f, index as int);
            }
            return Some(SolverResult::Unsat);
        }
        proof {
            assert forall|m: Seq<bool>|
                m.len() == vars0.len() && agrees(m, vars0) implies #[trigger] clause_holds(
                m,
                f[index as int],
            ) by {
                lemma_agrees_lit(m, vars0, lit);
                assert(lit_holds(m, f[index as int][0]));
            }
            lemma_drop_keeps_models(vars0, f, index as int);
        }
    } else {
        variables[x].set(!lit.negated(), VariableId::from_usize(0), usize::MAX);
        unaries.push(lit.id());
        proof {
            let vars1 = variables@;
            let g = f.update(index as int, f.last()).drop_last();
            assert(unaries@[unaries@.len() - 1] == lit.spec_id());
            assert forall|m: Seq<bool>| m.len() == vars0.len() implies (#[trigger] models(m, vars0, f)
                <==> models(m, vars1, g)) by {
                lemma_swap_remove_holds(m, f, index as int);
                if agrees(m, vars1) {
                    assert(vars1[x as int].assigned());
                    assert(m[x as int] == vars1[x as int].value);
                    assert(lit_holds(m, f[index as int][0]));
                    assert forall|v: int|
                        0 <= v < vars0.len() && (#[trigger] vars0[v]).assigned() implies m[v]
                        == vars0[v].value by {
                        assert(vars1[v].assigned());
                    }
                }
                if agrees(m, vars0) && clause_holds(m, f[index as int]) {
                    let k = choose|k: int|
                        0 <= k < f[index as int].len() && lit_holds(m, #[trigger] f[index as int][k]);
                    assert(k == 0);
                    assert forall|v: int|
                        0 <= v < vars1.len() && (#[trigger] vars1[v]).assigned() implies m[v]
                        == vars1[v].value by {
                        if v != x {
                            assert(vars0[v].assigned());
                        }
                    }
                }
            }
            assert forall|j: int| 0 <= j < unaries@.len() implies (#[trigger] unaries@[j]).0
                < vars1.len() && vars1[unaries@[j].0 as int].assigned() by {
                if j < old(unaries)@.len() {
                    assert(unaries@[j] == old(unaries)@[j]);
                    assert(vars0[unaries@[j].0 as int].assigned());
                }
            }
            assert forall|v: int|
                0 <= v < vars1.len() && (#[trigger] vars1[v]).assigned() implies vars0[v].assigned()
                || unaries@.contains(VariableId(v as usize)) by {
                if v == x {
                    assert(unaries@[unaries@.len() - 1] == VariableId(v as usize));
                }
            }
        }
    }
    let ghost before = clauses@;
    clauses.swap_remove(index);
    proof {
        assert(formula_of(clauses@) =~= f.update(index as int, f.last()).drop_last());
        assert forall|c: int| 0 <= c < clauses@.len() implies ascending(#[trigger] clauses@[c]@)
            && lits_in_range(clauses@[c]@, variables@.len()) by {
            if c == index {
                assert(clauses@[c] == before[before.len() - 1]);
            } else {
                assert(clauses@[c] == before[c]);
            }
        }
    }
    None
}

/// Sets the variables of unit clauses and takes what follows from them out
/// of the clauses, until nothing follows any more.
///
/// `vars_to_propagate` holds the variables that were fixed since the clauses
/// were last gone through. Each sweep goes through the clauses with the
/// sorted variables that the sweep before has fixed: a clause that one of
/// them satisfies is dropped, a literal that one of them falsifies is taken
/// out. A clause that has become empty shows that there is no model; one that
/// is left with one literal fixes that literal's variable for the next sweep.
pub fn unary_propagation(
    variables: &mut Vec<Variable>,
    clauses: &mut Vec<Vec<Literal>>,
    vars_to_propagate: Vec<VariableId>,
) -> (r: Option<SolverResult>)
    requires
        tidy(old(variables)@, old(clauses)@),
        all_fixed(vars_to_propagate@, old(variables)@),
        forall|c: int|
            0 <= c < old(clauses)@.len() ==> fixed_among(
                #[trigger] old(clauses)@[c]@,
                old(variables)@,
                vars_to_propagate@,
                Seq::<VariableId>::empty(),
            ),
    ensures
        r == None::<SolverResult> || r == Some(SolverResult::Unsat),
        r == Some(SolverResult::Unsat) ==> no_models(old(variables)@, formula_of(old(clauses)@)),
        final(variables)@.len() == old(variables)@.len(),
        final(clauses)@.len() <= old(clauses)@.len(),
        r == None::<SolverResult> ==> {
            &&& same_models(
                old(variables)@,
                formula_of(old(clauses)@),
                final(variables)@,
                formula_of(final(clauses)@),
            )
            &&& grown(old(variables)@, final(variables)@)
            &&& tidy(final(variables)@, final(clauses)@)
            &&& untouched(final(variables)@, final(clauses)@)
        },
{
    let ghost vars0 = variables@;
    let ghost f0 = formula_of(clauses@);
    let ghost none = Seq::<VariableId>::empty();
    let mut v = vars_to_propagate;
    let mut w: Vec<VariableId> = Vec::new();
    sort_ids(&mut v);
    proof {
        lemma_same_ids(vars_to_propagate@, v@);
        assert forall|j: int| 0 <= j < v@.len() implies (#[trigger] v@[j]).0 < vars0.len()
            && vars0[v@[j].0 as int].assigned() by {
            assert(v@.contains(v@[j]));
            let y = choose|y: int|
                0 <= y < vars_to_propagate@.len() && vars_to_propagate@[y] == v@[j];
            assert(vars_to_propagate@[y].0 < vars0.len());
        }
        assert forall|c: int| 0 <= c < clauses@.len() implies fixed_among(
            #[trigger] clauses@[c]@,
            vars0,
            v@,
            w@,
        ) by {
            assert(fixed_among(clauses@[c]@, vars0, vars_to_propagate@, none));
        }
    }
    loop
        invariant
            w@.len() == 0,
            variables@.len() == vars0.len(),
            clauses@.len() <= old(clauses)@.len(),
            vars0 == old(variables)@,
            f0 == formula_of(old(clauses)@),
            same_models(vars0, f0, variables@, formula_of(clauses@)),
            grown(vars0, variables@),
            tidy(variables@, clauses@),
            sorted_ids(v@),
            all_fixed(v@, variables@),
            forall|c: int|
                0 <= c < clauses@.len() ==> fixed_among(#[trigger] clauses@[c]@, variables@, v@, w@),
        ensures
            forall|c: int|
                0 <= c < clauses@.len() ==> (#[trigger] clauses@[c])@.len() >= 2 && fixed_among(
                    clauses@[c]@,
                    variables@,
                    Seq::<VariableId>::empty(),
                    w@,
                ),
        decreases clauses@.len(),
    {
        let ghost round_len = clauses@.len();
        let mut ci: usize = 0;
        while ci < clauses.len()
            invariant
                ci <= clauses.len(),
                variables@.len() == vars0.len(),
                clauses@.len() <= old(clauses)@.len(),
                vars0 == old(variables)@,
                f0 == formula_of(old(clauses)@),
                same_models(vars0, f0, variables@, formula_of(clauses@)),
                grown(vars0, variables@),
                tidy(variables@, clauses@),
                sorted_ids(v@),
                all_fixed(v@, variables@),
                all_fixed(w@, variables@),
                clauses@.len() + w@.len() <= round_len,
                forall|c: int|
                    0 <= c < ci ==> (#[trigger] clauses@[c])@.len() >= 2 && fixed_among(
                        clauses@[c]@,
                        variables@,
                        Seq::<VariableId>::empty(),
                        w@,
                    ),
                forall|c: int|
                    ci <= c < clauses@.len() ==> fixed_among(
                        #[trigger] clauses@[c]@,
                        variables@,
                        v@,
                        w@,
                    ),
            decreases clauses@.len() - ci,
        {
            let ghost before = clauses@;
            let ghost f = formula_of(before);
            let ghost vars1 = variables@;
            let ghost given = before[ci as int]@;
            assert(f[ci as int] == given);
            let sat = reduce_clause(&mut clauses[ci], variables, &v);
            let ghost mid = clauses@;
            let ghost left = mid[ci as int]@;
            proof {
                assert(mid =~= before.update(ci as int, mid[ci as int]));
                assert(formula_of(mid) =~= f.update(ci as int, left));
            }
            if sat {
                clauses.swap_remove(ci);
                proof {
                    let g = formula_of(clauses@);
                    assert(g =~= f.update(ci as int, f.last()).drop_last());
                    let k = choose|k: int|
                        0 <= k < given.len() && lit_true(vars1, #[trigger] given[k]);
                    assert forall|m: Seq<bool>|
                        m.len() == vars1.len() && agrees(m, vars1) implies #[trigger] clause_holds(
                        m,
                        f[ci as int],
                    ) by {
                        lemma_agrees_lit(m, vars1, given[k]);
                    }
                    lemma_drop_keeps_models(vars1, f, ci as int);
                    lemma_same_models_chain(vars0, f0, vars1, f, vars1, g);
                    lemma_kept_after_swap_remove(before, mid, clauses@, ci as int, vars1, v@, w@);
                }
            } else {
                proof {
                    let g = formula_of(mid);
                    assert forall|m: Seq<bool>|
                        m.len() == vars1.len() && agrees(m, vars1) implies (clause_holds(
                        m,
                        f[ci as int],
                    ) <==> #[trigger] clause_holds(m, left)) by {
                        lemma_reduced_holds(m, vars1, given, left, v@);
                    }
                    lemma_replace_keeps_models(vars1, f, ci as int, left);
                    lemma_same_models_chain(vars0, f0, vars1, f, vars1, g);
                    lemma_reduced_tidy(before, mid, ci as int, vars1, v@, w@);
                }
                if clauses[ci].len() == 0 {
                    proof {
                        let g = formula_of(mid);
                        assert forall|m: Seq<bool>|
                            m.len() == vars1.len() && agrees(m, vars1) implies !#[trigger] clause_holds(
                            m,
                            g[ci as int],
                        ) by {
                        }
                        lemma_failing_clause(vars1, g, ci as int);
                        lemma_same_models_chain(vars0, f0, vars1, g, vars1, g);
                    }
                    return Some(SolverResult::Unsat);
                } else if clauses[ci].len() == 1 {
                    let ghost w1 = w@;
                    let r = extract_unary_clause(variables, clauses, &mut w, ci);
                    proof {
                        let g = formula_of(mid);
                        lemma_same_models_chain(
                            vars0,
                            f0,
                            vars1,
                            g,
                            variables@,
                            formula_of(clauses@),
                        );
                    }
                    if r.is_some() {
                        return r;
                    }
                    proof {
                        lemma_grown_chain(vars0, vars1, variables@);
                        lemma_fixed_after_unit(mid, clauses@, ci as int, vars1, variables@, v@, w1, w@);
                        assert forall|j: int| 0 <= j < v@.len() implies (#[trigger] v@[j]).0
                            < variables@.len() && variables@[v@[j].0 as int].assigned() by {
                            assert(vars1[v@[j].0 as int].assigned());
                        }
                    }
                } else {
                    ci += 1;
                }
            }
        }
        if w.len() == 0 {
            proof {
                assert forall|c: int| 0 <= c < clauses@.len() implies fixed_among(
                    #[trigger] clauses@[c]@,
                    variables@,
                    v@,
                    w@,
                ) by {
                    assert(fixed_among(clauses@[c]@, variables@, none, w@));
                }
            }
            break ;
        }
        core::mem::swap(&mut v, &mut w);
        let ghost unsorted = v@;
        sort_ids(&mut v);
        w.clear();
        proof {
            lemma_same_ids(unsorted, v@);
            assert forall|j: int| 0 <= j < v@.len() implies (#[trigger] v@[j]).0 < variables@.len()
                && variables@[v@[j].0 as int].assigned() by {
                assert(v@.contains(v@[j]));
                let y = choose|y: int| 0 <= y < unsorted.len() && unsorted[y] == v@[j];
                assert(unsorted[y].0 < variables@.len());
            }
            assert forall|c: int| 0 <= c < clauses@.len() implies fixed_among(
                #[trigger] clauses@[c]@,
                variables@,
                v@,
                w@,
            ) by {
                assert(fixed_among(clauses@[c]@, variables@, none, unsorted));
            }
        }
    }
    proof {
        assert forall|c: int| 0 <= c < clauses@.len() implies (#[trigger] clauses@[c])@.len() >= 2
            && forall|k: int|
            0 <= k < clauses@[c]@.len() ==> !variables@[(#[trigger] clauses@[c]@[k]).var()].assigned() by {
            assert(fixed_among(clauses@[c]@, variables@, none, w@));
        }
    }
    None
}

/// No clause holds fewer than two literals, and none mentions a variable that
/// is assigned.
pub open(crate) spec fn untouched(vars: Seq<Variable>, clauses: Seq<Vec<Literal>>) -> bool {
    forall|c: int|
        0 <= c < clauses.len() ==> (#[trigger] clauses[c])@.len() >= 2 && forall|k: int|
            0 <= k < clauses[c]@.len() ==> !vars[(#[trigger] clauses[c]@[k]).var()].assigned()
}

/// Gaining values twice is gaining values.
pub proof fn lemma_grown_chain(a: Seq<Variable>, b: Seq<Variable>, c: Seq<Variable>)
    requires
        grown(a, b),
        grown(b, c),
    ensures
        grown(a, c),
{
    assert forall|v: int| 0 <= v < a.len() implies (#[trigger] c[v]).same_watchlists(&a[v]) && c[v].q
        == a[v].q && (a[v].assigned() ==> c[v].same_state(&a[v])) by {
        assert(b[v].same_watchlists(&a[v]));
        assert(c[v].same_watchlists(&b[v]));
    }
}

/// What a sweep knows of the clauses carries over when the clause at `ci`,
/// already reduced, is dropped.
proof fn lemma_kept_after_swap_remove(
    before: Seq<Vec<Literal>>,
    mid: Seq<Vec<Literal>>,
    after: Seq<Vec<Literal>>,
    ci: int,
    vars: Seq<Variable>,
    v: Seq<VariableId>,
    w: Seq<VariableId>,
)
    requires
        0 <= ci < before.len(),
        mid == before.update(ci, mid[ci]),
        after == mid.update(ci, mid.last()).drop_last(),
        tidy(vars, before),
        forall|c: int|
            0 <= c < ci ==> (#[trigger] before[c])@.len() >= 2 && fixed_among(
                before[c]@,
                vars,
                Seq::<VariableId>::empty(),
                w,
            ),
        forall|c: int| ci <= c < before.len() ==> fixed_among(#[trigger] before[c]@, vars, v, w),
    ensures
        tidy(vars, after),
        forall|c: int|
            0 <= c < ci ==> (#[trigger] after[c])@.len() >= 2 && fixed_among(
                after[c]@,
                vars,
                Seq::<VariableId>::empty(),
                w,
            ),
        forall|c: int| ci <= c < after.len() ==> fixed_among(#[trigger] after[c]@, vars, v, w),
{
    assert forall|c: int| 0 <= c < after.len() implies ascending(#[trigger] after[c]@)
        && lits_in_range(after[c]@, vars.len()) by {
        if c == ci {
            assert(after[c] == before[before.len() - 1]);
        } else {
            assert(after[c] == before[c]);
        }
    }
    assert forall|c: int| 0 <= c < ci implies (#[trigger] after[c])@.len() >= 2 && fixed_among(
        after[c]@,
        vars,
        Seq::<VariableId>::empty(),
        w,
    ) by {
        assert(after[c] == before[c]);
    }
    assert forall|c: int| ci <= c < after.len() implies fixed_among(
        #[trigger] after[c]@,
        vars,
        v,
        w,
    ) by {
        if c == ci {
            assert(after[c] == before[before.len() - 1]);
        } else {
            assert(after[c] == before[c]);
        }
    }
}

/// What a sweep knows of the clauses carries over when the clause at `ci` has
/// been reduced: that clause now mentions no variable of `v`.
proof fn lemma_reduced_tidy(
    before: Seq<Vec<Literal>>,
    mid: Seq<Vec<Literal>>,
    ci: int,
    vars: Seq<Variable>,
    v: Seq<VariableId>,
    w: Seq<VariableId>,
)
    requires
        0 <= ci < before.len(),
        mid == before.update(ci, mid[ci]),
        tidy(vars, before),
        ascending(mid[ci]@),
        forall|l: Literal|
            mid[ci]@.contains(l) <==> (before[ci]@.contains(l) && !v.contains(l.spec_id())),
        forall|c: int|
            0 <= c < ci ==> (#[trigger] before[c])@.len() >= 2 && fixed_among(
                before[c]@,
                vars,
                Seq::<VariableId>::empty(),
                w,
            ),
        forall|c: int| ci <= c < before.len() ==> fixed_among(#[trigger] before[c]@, vars, v, w),
    ensures
        tidy(vars, mid),
        fixed_among(mid[ci]@, vars, Seq::<VariableId>::empty(), w),
        forall|c: int|
            0 <= c < ci ==> (#[trigger] mid[c])@.len() >= 2 && fixed_among(
                mid[c]@,
                vars,
                Seq::<VariableId>::empty(),
                w,
            ),
        forall|c: int| ci <= c < mid.len() ==> fixed_among(#[trigger] mid[c]@, vars, v, w),
{
    let given = before[ci]@;
    let left = mid[ci]@;
    assert(fixed_among(given, vars, v, w));
    assert forall|k: int| 0 <= k < left.len() implies (#[trigger] left[k]).var() < vars.len() && (
    vars[left[k].var()].assigned() ==> w.contains(left[k].spec_id())) by {
        assert(left.contains(left[k]));
        let j = choose|j: int| 0 <= j < given.len() && given[j] == left[k];
        assert(given[j].var() < vars.len());
    }
    assert forall|c: int| 0 <= c < mid.len() implies ascending(#[trigger] mid[c]@) && lits_in_range(
        mid[c]@,
        vars.len(),
    ) by {
        if c != ci {
            assert(mid[c] == before[c]);
        }
    }
    assert forall|c: int| 0 <= c < ci implies (#[trigger] mid[c])@.len() >= 2 && fixed_among(
        mid[c]@,
        vars,
        Seq::<VariableId>::empty(),
        w,
    ) by {
        assert(mid[c] == before[c]);
    }
    assert forall|c: int| ci <= c < mid.len() implies fixed_among(#[trigger] mid[c]@, vars, v, w) by {
        if c != ci {
            assert(mid[c] == before[c]);
        }
    }
}

/// What a sweep knows of the clauses carries over when the unit clause at `ci`
/// has been taken out and its variable, if it was open, has been fixed and
/// noted in `w`.
proof fn lemma_fixed_after_unit(
    mid: Seq<Vec<Literal>>,
    after: Seq<Vec<Literal>>,
    ci: int,
    vars1: Seq<Variable>,
    vars2: Seq<Variable>,
    v: Seq<VariableId>,
    w1: Seq<VariableId>,
    w2: Seq<VariableId>,
)
    requires
        0 <= ci < mid.len(),
        after == mid.update(ci, mid.last()).drop_last(),
        grown(vars1, vars2),
        forall|j: int| 0 <= j < w1.len() ==> j < w2.len() && w2[j] == w1[j],
        forall|x: int|
            0 <= x < vars2.len() && (#[trigger] vars2[x]).assigned() ==> vars1[x].assigned()
                || w2.contains(VariableId(x as usize)),
        forall|c: int| 0 <= c < mid.len() ==> lits_in_range(#[trigger] mid[c]@, vars1.len()),
        forall|c: int|
            0 <= c < ci ==> (#[trigger] mid[c])@.len() >= 2 && fixed_among(
                mid[c]@,
                vars1,
                Seq::<VariableId>::empty(),
                w1,
            ),
        forall|c: int| ci <= c < mid.len() ==> fixed_among(#[trigger] mid[c]@, vars1, v, w1),
    ensures
        forall|c: int|
            0 <= c < ci ==> (#[trigger] after[c])@.len() >= 2 && fixed_among(
                after[c]@,
                vars2,
                Seq::<VariableId>::empty(),
                w2,
            ),
        forall|c: int| ci <= c < after.len() ==> fixed_among(#[trigger] after[c]@, vars2, v, w2),
{
    assert forall|c: int, a: Seq<VariableId>|
        0 <= c < mid.len() && fixed_among(mid[c]@, vars1, a, w1) implies #[trigger] fixed_among(
        mid[c]@,
        vars2,
        a,
        w2,
    ) by {
        let clause = mid[c]@;
        assert forall|k: int|
            0 <= k < clause.len() && vars2[(#[trigger] clause[k]).var()].assigned() implies a.contains(
            clause[k].spec_id(),
        ) || w2.contains(clause[k].spec_id()) by {
            let x = clause[k].var();
            assert(x < vars1.len());
            if vars1[x].assigned() {
                if w1.contains(clause[k].spec_id()) {
                    let j = choose|j: int| 0 <= j < w1.len() && w1[j] == clause[k].spec_id();
                    assert(w2[j] == clause[k].spec_id());
                }
            } else {
                assert(w2.contains(VariableId(x as usize)));
                assert(clause[k].spec_id() == VariableId(x as usize));
            }
        }
    }
    assert forall|c: int| 0 <= c < ci implies (#[trigger] after[c])@.len() >= 2 && fixed_among(
        after[c]@,
        vars2,
        Seq::<VariableId>::empty(),
        w2,
    ) by {
        assert(after[c] == mid[c]);
        assert(fixed_among(mid[c]@, vars1, Seq::<VariableId>::empty(), w1));
        assert(fixed_among(mid[c]@, vars2, Seq::<VariableId>::empty(), w2));
    }
    assert forall|c: int| ci <= c < after.len() implies fixed_among(
        #[trigger] after[c]@,
        vars2,
        v,
        w2,
    ) by {
        let src = if c == ci { mid.len() - 1 } else { c };
        assert(after[c] == mid[src]);
        assert(fixed_among(mid[src]@, vars1, v, w1));
        assert(fixed_among(mid[src]@, vars2, v, w2));
    }
}

/// What `unify_one` has found of two clauses, the first no longer than the
/// second.
#[derive(Debug)]
pub enum UnifyOneResult {
    /// The first clause does not fit into the second.
    Skip,
    /// The clauses were of one length and differed in the sign of one
    /// literal. That literal is gone from both, so that the two are now the
    /// same clause: either of them can be deleted.
    UnifiedDeleteAny,
    /// The first clause fitted into the longer second but for the sign of one
    /// literal. That literal is gone from the second clause.
    UnifiedBigger,
    /// The clauses are of one length and the first fits into the second:
    /// either can be deleted.
    DeleteAny,
    /// The first clause fits into the longer second, which can be deleted.
    DeleteBigger,
}

/// Every literal of `a` is a literal of `b`.
pub open(crate) spec fn fits(a: Seq<Literal>, b: Seq<Literal>) -> bool {
    forall|i: int| 0 <= i < a.len() ==> b.contains(#[trigger] a[i])
}

/// Every literal of `a` is a literal of `b`, but the one at `da`: the
/// literal of `b` at `db` is over its variable, with the other sign.
pub open(crate) spec fn fits_but(a: Seq<Literal>, b: Seq<Literal>, da: int, db: int) -> bool {
    &&& 0 <= da < a.len()
    &&& 0 <= db < b.len()
    &&& a[da].var() == b[db].var()
    &&& a[da].spec_negated() != b[db].spec_negated()
    &&& forall|i: int| 0 <= i < a.len() && i != da ==> b.contains(#[trigger] a[i])
}

/// Two clauses that cannot be unified: the one that is no longer than the
/// other, the first of the two where they are of one length, does not fit
/// into the other, not even but for the sign of one literal.
pub open(crate) spec fn pair_apart(a: Seq<Literal>, b: Seq<Literal>) -> bool {
    let small = if a.len() <= b.len() {
        a
    } else {
        b
    };
    let big = if a.len() <= b.len() {
        b
    } else {
        a
    };
    !fits(small, big) && forall|da: int, db: int| !#[trigger] fits_but(small, big, da, db)
}

/// No two clauses of the formula can be unified.
pub open(crate) spec fn apart(f: Seq<Seq<Literal>>) -> bool {
    forall|i: int, j: int| 0 <= i < j < f.len() ==> #[trigger] pair_apart(f[i], f[j])
}

/// How far clauses have been held against each other without a change: each
/// of the first `ci` clauses against every clause behind it, and the clause
/// at `ci` against those behind it and before `cj`.
pub open(crate) spec fn held_apart(f: Seq<Seq<Literal>>, ci: int, cj: int) -> bool {
    &&& forall|i: int, j: int| 0 <= i < ci && i < j < f.len() ==> #[trigger] pair_apart(f[i], f[j])
    &&& forall|j: int| ci < j < cj && j < f.len() && 0 <= ci ==> #[trigger] pair_apart(f[ci], f[j])
}

/// What each result of `unify_one` says of the clauses before (`a0`, `b0`)
/// and after (`a1`, `b1`).
pub open(crate) spec fn unify_outcome(
    r: UnifyOneResult,
    a0: Seq<Literal>,
    b0: Seq<Literal>,
    a1: Seq<Literal>,
    b1: Seq<Literal>,
) -> bool {
    match r {
        UnifyOneResult::Skip => {
            &&& a1 == a0
            &&& b1 == b0
            &&& !fits(a0, b0)
            &&& forall|da: int, db: int| !#[trigger] fits_but(a0, b0, da, db)
        },
        UnifyOneResult::DeleteAny => a1 == a0 && b1 == b0 && a0.len() == b0.len() && fits(a0, b0),
        UnifyOneResult::DeleteBigger => a1 == a0 && b1 == b0 && a0.len() < b0.len() && fits(a0, b0),
        UnifyOneResult::UnifiedDeleteAny => {
            &&& a0.len() == b0.len()
            &&& exists|da: int, db: int|
                #[trigger] fits_but(a0, b0, da, db) && a1 == a0.remove(da) && b1 == b0.remove(db)
        },
        UnifyOneResult::UnifiedBigger => {
            &&& a0.len() < b0.len()
            &&& a1 == a0
            &&& exists|da: int, db: int| #[trigger] fits_but(a0, b0, da, db) && b1 == b0.remove(db)
        },
    }
}

/// An ascending clause holds each variable once.
pub proof fn lemma_ascending_unique(c: Seq<Literal>, i: int, j: int)
    requires
        ascending(c),
        0 <= i < c.len(),
        0 <= j < c.len(),
        c[i].var() == c[j].var(),
    ensures
        i == j,
{
    if i < j {
        assert(c[i].var() < c[j].var());
    }
    if j < i {
        assert(c[j].var() < c[i].var());
    }
}

/// An ascending clause stays ascending when a literal is taken out.
pub proof fn lemma_remove_ascending(c: Seq<Literal>, d: int)
    requires
        ascending(c),
        0 <= d < c.len(),
    ensures
        ascending(c.remove(d)),
        forall|l: Literal| c.remove(d).contains(l) <==> (c.contains(l) && l != c[d]),
{
    let r = c.remove(d);
    assert forall|i: int, j: int| 0 <= i < j < r.len() implies r[i].var() < r[j].var() by {
        let ii = if i < d { i } else { i + 1 };
        let jj = if j < d { j } else { j + 1 };
        assert(r[i] == c[ii] && r[j] == c[jj]);
    }
    assert forall|l: Literal| r.contains(l) <==> (c.contains(l) && l != c[d]) by {
        if r.contains(l) {
            let i = choose|i: int| 0 <= i < r.len() && r[i] == l;
            let ii = if i < d { i } else { i + 1 };
            assert(c[ii] == l);
            if l == c[d] {
                lemma_ascending_unique(c, ii, d);
            }
        }
        if c.contains(l) && l != c[d] {
            let i = choose|i: int| 0 <= i < c.len() && c[i] == l;
            let ii = if i < d { i } else { i - 1 };
            assert(r[ii] == l);
        }
    }
}

/// Two ascending clauses of one length, the one fitting into the other, are
/// the same clause.
pub proof fn lemma_fits_same_length(s: Seq<Literal>, t: Seq<Literal>)
    requires
        ascending(s),
        ascending(t),
        s.len() == t.len(),
        fits(s, t),
    ensures
        s == t,
    decreases s.len(),
{
    if s.len() == 0 {
        assert(s =~= t);
    } else {
        let n = s.len() - 1;
        let s1 = s.drop_last();
        let t1 = t.drop_last();
        assert(t.contains(s[n]));
        let g = choose|g: int| 0 <= g < t.len() && t[g] == s[n];
        assert forall|i: int| 0 <= i < s1.len() implies t1.contains(#[trigger] s1[i]) by {
            assert(t.contains(s[i]));
            let f = choose|f: int| 0 <= f < t.len() && t[f] == s[i];
            if f == n {
                assert(s[i].var() < s[n].var());
                if g < n {
                    assert(t[g].var() < t[n].var());
                }
            }
            assert(t1[f] == s1[i]);
        }
        lemma_fits_same_length(s1, t1);
        if g < n {
            assert(s1[g] == t1[g]);
            assert(s[g].var() < s[n].var());
        }
        assert(s =~= s1.push(s[n]));
        assert(t =~= t1.push(t[n]));
    }
}

/// A clause that fits into another holds only where the other holds.
pub proof fn lemma_fits_implies(m: Seq<bool>, a: Seq<Literal>, b: Seq<Literal>)
    requires
        fits(a, b),
        clause_holds(m, a),
    ensures
        clause_holds(m, b),
{
    let k = choose|k: int| 0 <= k < a.len() && lit_holds(m, #[trigger] a[k]);
    assert(b.contains(a[k]));
    let j = choose|j: int| 0 <= j < b.len() && b[j] == a[k];
    assert(lit_holds(m, b[j]));
}

/// Two clauses of one length that differ in the sign of one literal hold
/// together exactly where what they share holds.
pub proof fn lemma_resolve_same_length(m: Seq<bool>, a: Seq<Literal>, b: Seq<Literal>, da: int, db: int)
    requires
        ascending(a),
        ascending(b),
        a.len() == b.len(),
        fits_but(a, b, da, db),
    ensures
        a.remove(da) == b.remove(db),
        (clause_holds(m, a) && clause_holds(m, b)) <==> clause_holds(m, a.remove(da)),
{
    let a1 = a.remove(da);
    let b1 = b.remove(db);
    lemma_remove_ascending(a, da);
    lemma_remove_ascending(b, db);
    assert forall|i: int| 0 <= i < a1.len() implies b1.contains(#[trigger] a1[i]) by {
        let ii = if i < da { i } else { i + 1 };
        assert(a1[i] == a[ii]);
        assert(b.contains(a[ii]));
        if a[ii] == b[db] {
            lemma_ascending_unique(a, ii, da);
        }
    }
    lemma_fits_same_length(a1, b1);
    if clause_holds(m, a1) {
        let k = choose|k: int| 0 <= k < a1.len() && lit_holds(m, #[trigger] a1[k]);
        assert(a1.contains(a1[k]));
        assert(a.contains(a1[k]));
        let x = choose|x: int| 0 <= x < a.len() && a[x] == a1[k];
        assert(lit_holds(m, a[x]));
        assert(b1.contains(a1[k]));
        assert(b.contains(a1[k]));
        let y = choose|y: int| 0 <= y < b.len() && b[y] == a1[k];
        assert(lit_holds(m, b[y]));
    }
    if clause_holds(m, a) && clause_holds(m, b) {
        let x = choose|x: int| 0 <= x < a.len() && lit_holds(m, #[trigger] a[x]);
        let y = choose|y: int| 0 <= y < b.len() && lit_holds(m, #[trigger] b[y]);
        if x != da {
            assert(a.contains(a[x]));
            assert(a1.contains(a[x]));
            let k = choose|k: int| 0 <= k < a1.len() && a1[k] == a[x];
            assert(lit_holds(m, a1[k]));
        } else {
            assert(y != db);
            assert(b.contains(b[y]));
            assert(b1.contains(b[y]));
            let k = choose|k: int| 0 <= k < a1.len() && a1[k] == b[y];
            assert(lit_holds(m, a1[k]));
        }
    }
}

/// Where a clause fits into a longer one but for the sign of one literal,
/// the two hold together exactly where the first and the second without that
/// literal hold together.
pub proof fn lemma_resolve_bigger(m: Seq<bool>, a: Seq<Literal>, b: Seq<Literal>, da: int, db: int)
    requires
        ascending(a),
        ascending(b),
        fits_but(a, b, da, db),
    ensures
        (clause_holds(m, a) && clause_holds(m, b)) <==> (clause_holds(m, a) && clause_holds(
            m,
            b.remove(db),
        )),
{
    let b1 = b.remove(db);
    lemma_remove_ascending(b, db);
    if clause_holds(m, a) && clause_holds(m, b1) {
        let k = choose|k: int| 0 <= k < b1.len() && lit_holds(m, #[trigger] b1[k]);
        assert(b1.contains(b1[k]));
        let y = choose|y: int| 0 <= y < b.len() && b[y] == b1[k];
        assert(lit_holds(m, b[y]));
    }
    if clause_holds(m, a) && clause_holds(m, b) {
        let x = choose|x: int| 0 <= x < a.len() && lit_holds(m, #[trigger] a[x]);
        let y = choose|y: int| 0 <= y < b.len() && lit_holds(m, #[trigger] b[y]);
        if y != db {
            assert(b.contains(b[y]));
            assert(b1.contains(b[y]));
            let k = choose|k: int| 0 <= k < b1.len() && b1[k] == b[y];
            assert(lit_holds(m, b1[k]));
        } else {
            assert(x != da);
            assert(b.contains(a[x]));
            assert(a[x] != b[db]);
            assert(b1.contains(a[x]));
            let k = choose|k: int| 0 <= k < b1.len() && b1[k] == a[x];
            assert(lit_holds(m, b1[k]));
        }
    }
}

/// Holds two ascending clauses against each other, the first no longer than
/// the second. Where every variable of the first occurs in the second, with
/// the same sign but for at most one, something can be done: see the results.
pub fn unify_one(a: &mut Vec<Literal>, b: &mut Vec<Literal>) -> (r: UnifyOneResult)
    requires
        old(a)@.len() <= old(b)@.len(),
        ascending(old(a)@),
        ascending(old(b)@),
    ensures
        unify_outcome(r, old(a)@, old(b)@, final(a)@, final(b)@),
{
    let ghost a0 = a@;
    let ghost b0 = b@;
    let mut difference: Option<(usize, usize)> = None;
    let mut j: usize = 0;
    let mut i: usize = 0;
    while i < a.len()
        invariant
            i <= a.len(),
            j <= b.len(),
            a@ == a0,
            b@ == b0,
            a0 == old(a)@,
            b0 == old(b)@,
            ascending(a0),
            ascending(b0),
            forall|y: int| 0 <= y < j && i < a0.len() ==> (#[trigger] b0[y]).var() < a0[i as int].var(),
            match difference {
                None => forall|x: int| 0 <= x < i ==> b0.contains(#[trigger] a0[x]),
                Some((da, db)) => {
                    &&& da < i
                    &&& db < b0.len()
                    &&& a0[da as int].var() == b0[db as int].var()
                    &&& a0[da as int].spec_negated() != b0[db as int].spec_negated()
                    &&& forall|x: int| 0 <= x < i && x != da ==> b0.contains(#[trigger] a0[x])
                },
            },
        decreases a.len() - i,
    {
        let li = a[i];
        while j < b.len() && b[j].id().to_usize() < li.id().to_usize()
            invariant
                j <= b.len(),
                b@ == b0,
                i < a0.len(),
                li == a0[i as int],
                forall|y: int| 0 <= y < j ==> (#[trigger] b0[y]).var() < a0[i as int].var(),
            decreases b.len() - j,
        {
            j += 1;
        }
        if j >= b.len() {
            proof {
                lemma_absent_skips(a0, b0, i as int);
            }
            return UnifyOneResult::Skip;
        }
        let lj = b[j];
        if li.id() != lj.id() {
            proof {
                assert forall|y: int| 0 <= y < b0.len() implies (#[trigger] b0[y]).var()
                    != a0[i as int].var() by {
                    if y > j {
                        assert(b0[j as int].var() < b0[y].var());
                    }
                }
                lemma_absent_skips(a0, b0, i as int);
            }
            return UnifyOneResult::Skip;
        }
        if li.negated() != lj.negated() {
            match difference {
                None => {
                    difference = Some((i, j));
                },
                Some((da, db)) => {
                    proof {
                        lemma_two_signs_skip(a0, b0, da as int, db as int, i as int, j as int);
                    }
                    return UnifyOneResult::Skip;
                },
            }
        } else {
            proof {
                assert(li == lj);
                assert(b0[j as int] == a0[i as int]);
            }
        }
        proof {
            if i + 1 < a0.len() {
                assert(a0[i as int].var() < a0[i + 1].var());
            }
        }
        i += 1;
    }
    match difference {
        Some((da, db)) => {
            proof {
                assert(fits_but(a0, b0, da as int, db as int));
            }
            if a.len() == b.len() {
                a.remove(da);
                b.remove(db);
                UnifyOneResult::UnifiedDeleteAny
            } else {
                b.remove(db);
                UnifyOneResult::UnifiedBigger
            }
        },
        None => {
            if a.len() == b.len() {
                UnifyOneResult::DeleteAny
            } else {
                UnifyOneResult::DeleteBigger
            }
        },
    }
}

/// Where a variable of `a` does not occur in `b`, `a` fits into `b` in no way.
proof fn lemma_absent_skips(a: Seq<Literal>, b: Seq<Literal>, i: int)
    requires
        0 <= i < a.len(),
        forall|y: int| 0 <= y < b.len() ==> (#[trigger] b[y]).var() != a[i].var(),
    ensures
        !fits(a, b),
        forall|da: int, db: int| !#[trigger] fits_but(a, b, da, db),
{
    if b.contains(a[i]) {
        let y = choose|y: int| 0 <= y < b.len() && b[y] == a[i];
        assert(b[y].var() == a[i].var());
    }
    assert forall|da: int, db: int| !#[trigger] fits_but(a, b, da, db) by {
        if fits_but(a, b, da, db) {
            if da == i {
                assert(b[db].var() == a[i].var());
            } else {
                assert(b.contains(a[i]));
            }
        }
    }
}

/// Where two literals of `a` occur in `b` with the other sign, `a` fits into
/// `b` in no way.
proof fn lemma_two_signs_skip(a: Seq<Literal>, b: Seq<Literal>, d1: int, e1: int, d2: int, e2: int)
    requires
        ascending(b),
        0 <= d1 < a.len(),
        0 <= d2 < a.len(),
        d1 != d2,
        0 <= e1 < b.len(),
        0 <= e2 < b.len(),
        a[d1].var() == b[e1].var(),
        a[d1].spec_negated() != b[e1].spec_negated(),
        a[d2].var() == b[e2].var(),
        a[d2].spec_negated() != b[e2].spec_negated(),
    ensures
        !fits(a, b),
        forall|da: int, db: int| !#[trigger] fits_but(a, b, da, db),
{
    if b.contains(a[d1]) {
        let y = choose|y: int| 0 <= y < b.len() && b[y] == a[d1];
        lemma_ascending_unique(b, y, e1);
    }
    if b.contains(a[d2]) {
        let y = choose|y: int| 0 <= y < b.len() && b[y] == a[d2];
        lemma_ascending_unique(b, y, e2);
    }
    assert forall|da: int, db: int| !#[trigger] fits_but(a, b, da, db) by {
        if fits_but(a, b, da, db) {
            if da != d1 {
                assert(b.contains(a[d1]));
            } else {
                assert(b.contains(a[d2]));
            }
        }
    }
}

/// The number of clauses and of literals in them, taken together.
pub open spec fn total_size(f: Seq<Seq<Literal>>) -> nat
    decreases f.len(),
{
    if f.len() == 0 {
        0
    } else {
        total_size(f.drop_last()) + f.last().len() + 1
    }
}

/// What replacing a clause does to the total size.
pub proof fn lemma_size_update(f: Seq<Seq<Literal>>, i: int, c: Seq<Literal>)
    requires
        0 <= i < f.len(),
    ensures
        total_size(f.update(i, c)) == total_size(f) - f[i].len() + c.len(),
    decreases f.len(),
{
    let g = f.update(i, c);
    if i == f.len() - 1 {
        assert(g.drop_last() =~= f.drop_last());
    } else {
        assert(g.drop_last() =~= f.drop_last().update(i, c));
        lemma_size_update(f.drop_last(), i, c);
    }
}

/// What dropping a clause does to the total size.
pub proof fn lemma_size_swap_remove(f: Seq<Seq<Literal>>, i: int)
    requires
        0 <= i < f.len(),
    ensures
        total_size(f.update(i, f.last()).drop_last()) == total_size(f) - f[i].len() - 1,
{
    let g = f.update(i, f.last());
    lemma_size_update(f, i, f.last());
    assert(g.last() == f.last());
}

/// Dropping a clause that holds wherever another clause of the formula
/// holds keeps the models.
pub proof fn lemma_drop_implied(vars: Seq<Variable>, f: Seq<Seq<Literal>>, s: int, t: int)
    requires
        0 <= s < f.len(),
        0 <= t < f.len(),
        s != t,
        forall|m: Seq<bool>| clause_holds(m, f[s]) ==> #[trigger] clause_holds(m, f[t]),
    ensures
        same_models(vars, f, vars, f.update(t, f.last()).drop_last()),
{
    let g = f.update(t, f.last()).drop_last();
    assert forall|m: Seq<bool>| m.len() == vars.len() implies (#[trigger] models(m, vars, f)
        <==> models(m, vars, g)) by {
        lemma_swap_remove_holds(m, f, t);
        if formula_holds(m, g) {
            let at = if s == f.len() - 1 { t } else { s };
            assert(g[at] == f[s]);
            assert(clause_holds(m, f[s]));
            assert(clause_holds(m, f[t]));
        }
    }
}

/// Replacing two clauses by one that holds exactly where both hold keeps the
/// models.
pub proof fn lemma_merge(vars: Seq<Variable>, f: Seq<Seq<Literal>>, s: int, t: int, c: Seq<Literal>)
    requires
        0 <= s < f.len(),
        0 <= t < f.len(),
        s != t,
        forall|m: Seq<bool>|
            (clause_holds(m, f[s]) && clause_holds(m, f[t])) <==> #[trigger] clause_holds(m, c),
    ensures
        same_models(vars, f, vars, f.update(s, c).update(t, f.update(s, c).last()).drop_last()),
{
    let h = f.update(s, c);
    let g = h.update(t, h.last()).drop_last();
    assert forall|m: Seq<bool>| m.len() == vars.len() implies (#[trigger] models(m, vars, f)
        <==> models(m, vars, g)) by {
        lemma_swap_remove_holds(m, h, t);
        lemma_update_holds(m, f, s, c);
        assert(h[t] == f[t]);
        assert(clause_holds(m, c) ==> clause_holds(m, f[s]) && clause_holds(m, f[t]));
        if formula_holds(m, f) {
            assert(clause_holds(m, f[s]) && clause_holds(m, f[t]));
            assert(formula_holds(m, h));
        }
        if formula_holds(m, g) {
            let at = if s == h.len() - 1 { t } else { s };
            assert(g[at] == c);
            assert(clause_holds(m, c));
            assert(clause_holds(m, h[t]));
            assert(formula_holds(m, h));
            assert forall|j: int| 0 <= j < f.len() implies clause_holds(m, #[trigger] f[j]) by {
                if j != s {
                    assert(h[j] == f[j]);
                }
            }
        }
    }
}

/// Replacing a clause by one that, beside another clause of the formula, holds
/// in the same cases keeps the models.
pub proof fn lemma_strengthen(vars: Seq<Variable>, f: Seq<Seq<Literal>>, s: int, t: int, c: Seq<Literal>)
    requires
        0 <= s < f.len(),
        0 <= t < f.len(),
        s != t,
        forall|m: Seq<bool>|
            #![trigger clause_holds(m, c)]
            (clause_holds(m, f[s]) && clause_holds(m, f[t])) <==> (clause_holds(m, f[s])
                && clause_holds(m, c)),
    ensures
        same_models(vars, f, vars, f.update(t, c)),
{
    let g = f.update(t, c);
    assert forall|m: Seq<bool>| m.len() == vars.len() implies (#[trigger] models(m, vars, f)
        <==> models(m, vars, g)) by {
        lemma_update_holds(m, f, t, c);
        assert((clause_holds(m, f[s]) && clause_holds(m, f[t])) <==> (clause_holds(m, f[s])
            && clause_holds(m, c)));
        if formula_holds(m, f) {
            assert(clause_holds(m, f[s]) && clause_holds(m, f[t]));
        }
        if formula_holds(m, g) {
            assert(g[s] == f[s]);
            assert(clause_holds(m, f[s]));
            assert(g[t] == c);
            assert forall|j: int| 0 <= j < f.len() implies clause_holds(m, #[trigger] f[j]) by {
                if j != t {
                    assert(g[j] == f[j]);
                }
            }
        }
    }
}

/// Calls `unify_one` on the clauses at `small` and at `big`.
fn unify_pair(clauses: &mut Vec<Vec<Literal>>, small: usize, big: usize) -> (r: UnifyOneResult)
    requires
        small < old(clauses)@.len(),
        big < old(clauses)@.len(),
        small != big,
        old(clauses)@[small as int]@.len() <= old(clauses)@[big as int]@.len(),
        ascending(old(clauses)@[small as int]@),
        ascending(old(clauses)@[big as int]@),
    ensures
        final(clauses)@.len() == old(clauses)@.len(),
        forall|k: int|
            0 <= k < old(clauses)@.len() && k != small && k != big ==> final(clauses)@[k] == old(clauses)@[k],
        unify_outcome(
            r,
            old(clauses)@[small as int]@,
            old(clauses)@[big as int]@,
            final(clauses)@[small as int]@,
            final(clauses)@[big as int]@,
        ),
{
    if small < big {
        let (left, right) = clauses.split_at_mut(big);
        unify_one(&mut left[small], &mut right[0])
    } else {
        let (left, right) = clauses.split_at_mut(small);
        unify_one(&mut right[0], &mut left[big])
    }
}

/// Exchanges the clauses at `i` and at `j`.
fn swap_clauses(clauses: &mut Vec<Vec<Literal>>, i: usize, j: usize)
    requires
        i < old(clauses)@.len(),
        j < old(clauses)@.len(),
        i != j,
    ensures
        final(clauses)@ == old(clauses)@.update(i as int, old(clauses)@[j as int]).update(
            j as int,
            old(clauses)@[i as int],
        ),
{
    if i < j {
        let (left, right) = clauses.split_at_mut(j);
        core::mem::swap(&mut left[i], &mut right[0]);
    } else {
        let (left, right) = clauses.split_at_mut(i);
        core::mem::swap(&mut right[0], &mut left[j]);
    }
    assert(clauses@ =~= old(clauses)@.update(i as int, old(clauses)@[j as int]).update(
        j as int,
        old(clauses)@[i as int],
    ));
}

/// The state between two steps of unification: the clauses are tidy, and the
/// variables that they mention and that are assigned are noted in `unaries`.
pub open(crate) spec fn settled(
    vars: Seq<Variable>,
    clauses: Seq<Vec<Literal>>,
    unaries: Seq<VariableId>,
) -> bool {
    &&& tidy(vars, clauses)
    &&& all_fixed(unaries, vars)
    &&& forall|c: int|
        0 <= c < clauses.len() ==> fixed_among(
            #[trigger] clauses[c]@,
            vars,
            unaries,
            Seq::<VariableId>::empty(),
        )
}

/// Every clause has two literals or more, but perhaps the one at `x`.
pub open(crate) spec fn long_but(clauses: Seq<Vec<Literal>>, x: int) -> bool {
    forall|c: int| 0 <= c < clauses.len() && c != x ==> (#[trigger] clauses[c])@.len() >= 2
}

/// Dropping a clause keeps the state settled. Where one clause may be short,
/// it is found where it was, or at `t` if it was the last clause.
proof fn lemma_settled_swap_remove(
    vars: Seq<Variable>,
    before: Seq<Vec<Literal>>,
    unaries: Seq<VariableId>,
    t: int,
    x: int,
)
    requires
        0 <= t < before.len(),
        settled(vars, before, unaries),
        long_but(before, x),
    ensures
        settled(vars, before.update(t, before.last()).drop_last(), unaries),
        long_but(
            before.update(t, before.last()).drop_last(),
            if x == t {
                -1
            } else if x == before.len() - 1 {
                t
            } else {
                x
            },
        ),
        total_size(formula_of(before.update(t, before.last()).drop_last())) < total_size(
            formula_of(before),
        ),
{
    let after = before.update(t, before.last()).drop_last();
    assert forall|c: int| 0 <= c < after.len() implies ascending(#[trigger] after[c]@)
        && lits_in_range(after[c]@, vars.len()) && fixed_among(
        after[c]@,
        vars,
        unaries,
        Seq::<VariableId>::empty(),
    ) by {
        let src = if c == t { before.len() - 1 } else { c };
        assert(after[c] == before[src]);
    }
    let x1 = if x == t { -1 } else if x == before.len() - 1 { t } else { x };
    assert forall|c: int| 0 <= c < after.len() && c != x1 implies (#[trigger] after[c])@.len()
        >= 2 by {
        let src = if c == t { before.len() - 1 } else { c };
        assert(after[c] == before[src]);
    }
    let f = formula_of(before);
    assert(formula_of(after) =~= f.update(t, f.last()).drop_last());
    lemma_size_swap_remove(f, t);
}

/// Replacing a clause by an ascending part of it keeps the state settled.
proof fn lemma_settled_shrink(
    vars: Seq<Variable>,
    before: Seq<Vec<Literal>>,
    after: Seq<Vec<Literal>>,
    unaries: Seq<VariableId>,
    t: int,
    d: int,
)
    requires
        0 <= t < before.len(),
        after.len() == before.len(),
        forall|k: int| 0 <= k < before.len() && k != t ==> after[k] == before[k],
        0 <= d < before[t]@.len(),
        after[t]@ == before[t]@.remove(d),
        settled(vars, before, unaries),
        long_but(before, -1),
    ensures
        settled(vars, after, unaries),
        long_but(after, t),
        after[t]@.len() >= 1,
        total_size(formula_of(after)) < total_size(formula_of(before)),
{
    let given = before[t]@;
    let left = after[t]@;
    lemma_remove_ascending(given, d);
    assert(fixed_among(given, vars, unaries, Seq::<VariableId>::empty()));
    assert forall|k: int| 0 <= k < left.len() implies (#[trigger] left[k]).var() < vars.len() && (
    vars[left[k].var()].assigned() ==> unaries.contains(left[k].spec_id())) by {
        let kk = if k < d { k } else { k + 1 };
        assert(left[k] == given[kk]);
    }
    assert forall|c: int| 0 <= c < after.len() implies ascending(#[trigger] after[c]@)
        && lits_in_range(after[c]@, vars.len()) && fixed_among(
        after[c]@,
        vars,
        unaries,
        Seq::<VariableId>::empty(),
    ) by {
        if c != t {
            assert(after[c] == before[c]);
        }
    }
    assert forall|c: int| 0 <= c < after.len() && c != t implies (#[trigger] after[c])@.len()
        >= 2 by {
        assert(after[c] == before[c]);
    }
    let f = formula_of(before);
    assert(formula_of(after) =~= f.update(t, left));
    lemma_size_update(f, t, left);
}

/// Taking a unit clause out, and fixing its variable, keeps the state settled.
proof fn lemma_settled_unit(
    vars1: Seq<Variable>,
    vars2: Seq<Variable>,
    before: Seq<Vec<Literal>>,
    u1: Seq<VariableId>,
    u2: Seq<VariableId>,
    t: int,
)
    requires
        0 <= t < before.len(),
        settled(vars1, before, u1),
        long_but(before, t),
        grown(vars1, vars2),
        tidy(vars2, before.update(t, before.last()).drop_last()),
        all_fixed(u2, vars2),
        forall|j: int| 0 <= j < u1.len() ==> j < u2.len() && u2[j] == u1[j],
        forall|x: int|
            0 <= x < vars2.len() && (#[trigger] vars2[x]).assigned() ==> vars1[x].assigned()
                || u2.contains(VariableId(x as usize)),
    ensures
        settled(vars2, before.update(t, before.last()).drop_last(), u2),
        long_but(before.update(t, before.last()).drop_last(), -1),
        total_size(formula_of(before.update(t, before.last()).drop_last())) < total_size(
            formula_of(before),
        ),
{
    let after = before.update(t, before.last()).drop_last();
    let none = Seq::<VariableId>::empty();
    assert forall|c: int| 0 <= c < after.len() implies fixed_among(
        #[trigger] after[c]@,
        vars2,
        u2,
        none,
    ) && (c != -1 ==> after[c]@.len() >= 2) by {
        let src = if c == t { before.len() - 1 } else { c };
        assert(after[c] == before[src]);
        let clause = before[src]@;
        assert(fixed_among(clause, vars1, u1, none));
        assert(lits_in_range(clause, vars1.len()));
        assert forall|k: int|
            0 <= k < clause.len() && vars2[(#[trigger] clause[k]).var()].assigned() implies u2.contains(
            clause[k].spec_id(),
        ) || none.contains(clause[k].spec_id()) by {
            let x = clause[k].var();
            if vars1[x].assigned() {
                assert(u1.contains(clause[k].spec_id()));
                let j = choose|j: int| 0 <= j < u1.len() && u1[j] == clause[k].spec_id();
                assert(u2[j] == clause[k].spec_id());
            } else {
                assert(u2.contains(VariableId(x as usize)));
                assert(clause[k].spec_id() == VariableId(x as usize));
            }
        }
    }
    let f = formula_of(before);
    assert(formula_of(after) =~= f.update(t, f.last()).drop_last());
    lemma_size_swap_remove(f, t);
}

/// One step of unification: holds the clauses at `ci` and at `cj` against
/// each other and does what `unify_one` has found possible. A clause that is
/// left with one literal is taken out and its variable is fixed. Moves `cj`
/// on, or back to the start where a clause has become shorter and is to be
/// held against the clauses before it again.
fn unify_at(
    variables: &mut Vec<Variable>,
    clauses: &mut Vec<Vec<Literal>>,
    unaries: &mut Vec<VariableId>,
    ci: &mut usize,
    cj: &mut usize,
    changed: &mut bool,
) -> (r: Option<SolverResult>)
    requires
        *old(ci) < old(clauses)@.len(),
        *old(cj) < old(clauses)@.len(),
        settled(old(variables)@, old(clauses)@, old(unaries)@),
        long_but(old(clauses)@, -1),
    ensures
        r == None::<SolverResult> || r == Some(SolverResult::Unsat),
        r == Some(SolverResult::Unsat) ==> no_models(old(variables)@, formula_of(old(clauses)@)),
        final(variables)@.len() == old(variables)@.len(),
        final(clauses)@.len() <= old(clauses)@.len(),
        r == None::<SolverResult> ==> {
            &&& same_models(
                old(variables)@,
                formula_of(old(clauses)@),
                final(variables)@,
                formula_of(final(clauses)@),
            )
            &&& grown(old(variables)@, final(variables)@)
            &&& settled(final(variables)@, final(clauses)@, final(unaries)@)
            &&& long_but(final(clauses)@, -1)
            &&& final(clauses)@.len() + final(unaries)@.len() <= old(clauses)@.len() + old(unaries)@.len()
            &&& total_size(formula_of(final(clauses)@)) <= total_size(formula_of(old(clauses)@))
            &&& *final(ci) <= *old(ci)
            &&& *final(cj) <= old(clauses)@.len()
            &&& (*final(ci) < final(clauses)@.len() || *final(cj) >= final(clauses)@.len())
            &&& (total_size(formula_of(final(clauses)@)) == total_size(formula_of(old(clauses)@))
                ==> final(clauses)@.len() == old(clauses)@.len() && *final(ci) == *old(ci)
                && *final(cj) == *old(cj) + 1)
            &&& *final(changed) == (*old(changed) || total_size(formula_of(final(clauses)@)) < total_size(
                formula_of(old(clauses)@),
            ))
            &&& (total_size(formula_of(final(clauses)@)) == total_size(formula_of(old(clauses)@)) ==> {
                &&& formula_of(final(clauses)@) == formula_of(old(clauses)@)
                &&& final(unaries)@ == old(unaries)@
                &&& (*old(ci) != *old(cj) ==> pair_apart(
                    old(clauses)@[*old(ci) as int]@,
                    old(clauses)@[*old(cj) as int]@,
                ))
            })
        },
{
    let ghost vars0 = variables@;
    let ghost before = clauses@;
    let ghost f = formula_of(before);
    let ghost u0 = unaries@;
    proof {
        lemma_models_reflexive(vars0, f);
        lemma_grown_chain(vars0, vars0, vars0);
    }
    let len = clauses.len();
    if *ci == *cj {
        *cj = *cj + 1;
        return None;
    }
    let first_is_small = clauses[*ci].len() <= clauses[*cj].len();
    let small = if first_is_small { *ci } else { *cj };
    let big = if first_is_small { *cj } else { *ci };
    let found = unify_pair(clauses, small, big);
    let ghost mid = clauses@;
    let ghost a0 = before[small as int]@;
    let ghost b0 = before[big as int]@;
    assert(f[small as int] == a0 && f[big as int] == b0);
    match found {
        UnifyOneResult::Skip => {
            proof {
                lemma_same_views(vars0, before, mid, u0);
            }
            *cj = *cj + 1;
            None
        },
        UnifyOneResult::UnifiedDeleteAny => {
            *changed = true;
            proof {
                let (da, db) = choose|da: int, db: int|
                    #[trigger] fits_but(a0, b0, da, db) && mid[small as int]@ == a0.remove(da)
                        && mid[big as int]@ == b0.remove(db);
                let a1 = a0.remove(da);
                assert forall|m: Seq<bool>|
                    (clause_holds(m, f[small as int]) && clause_holds(m, f[big as int]))
                        <==> #[trigger] clause_holds(m, a1) by {
                    lemma_resolve_same_length(m, a0, b0, da, db);
                }
                lemma_merge(vars0, f, small as int, big as int, a1);
                // The second clause is dropped, the first stays.
                let half = before.update(small as int, mid[small as int]);
                lemma_settled_shrink(vars0, before, half, u0, small as int, da);
                lemma_settled_swap_remove(vars0, half, u0, big as int, small as int);
                assert(mid.update(big as int, mid.last()).drop_last() =~= half.update(
                    big as int,
                    half.last(),
                ).drop_last());
                assert(formula_of(half) =~= f.update(small as int, a1));
                let h = formula_of(half);
                assert(formula_of(half.update(big as int, half.last()).drop_last()) =~= h.update(
                    big as int,
                    h.last(),
                ).drop_last());
            }
            // Only clauses of one length come here, so the first was the smaller.
            assert(first_is_small);
            clauses.swap_remove(*cj);
            if *ci == clauses.len() {
                *ci = *cj;
            }
            let ghost now = clauses@;
            if clauses[*ci].len() == 1 {
                let r = extract_unary_clause(variables, clauses, unaries, *ci);
                proof {
                    lemma_same_models_chain(
                        vars0,
                        f,
                        vars0,
                        formula_of(now),
                        variables@,
                        formula_of(clauses@),
                    );
                }
                if r.is_some() {
                    return r;
                }
                proof {
                    lemma_settled_unit(vars0, variables@, now, u0, unaries@, *ci as int);
                }
                *cj = *ci + 1;
            } else {
                *cj = 0;
            }
            None
        },
        UnifyOneResult::UnifiedBigger => {
            *changed = true;
            proof {
                let (da, db) = choose|da: int, db: int|
                    #[trigger] fits_but(a0, b0, da, db) && mid[big as int]@ == b0.remove(db);
                let b1 = b0.remove(db);
                assert forall|m: Seq<bool>|
                    #![trigger clause_holds(m, b1)]
                    (clause_holds(m, f[small as int]) && clause_holds(m, f[big as int])) <==> (
                    clause_holds(m, f[small as int]) && clause_holds(m, b1)) by {
                    lemma_resolve_bigger(m, a0, b0, da, db);
                }
                lemma_strengthen(vars0, f, small as int, big as int, b1);
                assert(formula_of(mid) =~= f.update(big as int, b1));
                assert(mid[small as int]@ == before[small as int]@);
                lemma_settled_shrink_at(vars0, before, mid, u0, small as int, big as int, db);
            }
            if clauses[big].len() == 1 {
                let r = extract_unary_clause(variables, clauses, unaries, big);
                proof {
                    lemma_same_models_chain(
                        vars0,
                        f,
                        vars0,
                        formula_of(mid),
                        variables@,
                        formula_of(clauses@),
                    );
                }
                if r.is_some() {
                    return r;
                }
                proof {
                    lemma_settled_unit(vars0, variables@, mid, u0, unaries@, big as int);
                }
                if first_is_small {
                    if *ci == clauses.len() {
                        *ci = *cj;
                    }
                    *cj = *cj + 1;
                } else {
                    *cj = *ci + 1;
                }
            } else {
                if first_is_small {
                    swap_clauses(clauses, *ci, *cj);
                    proof {
                        lemma_settled_swap(vars0, mid, u0, *ci as int, *cj as int);
                        lemma_same_models_chain(
                            vars0,
                            f,
                            vars0,
                            formula_of(mid),
                            vars0,
                            formula_of(clauses@),
                        );
                    }
                }
                *cj = 0;
            }
            None
        },
        UnifyOneResult::DeleteAny => {
            *changed = true;
            proof {
                lemma_same_views(vars0, before, mid, u0);
                assert forall|m: Seq<bool>| clause_holds(m, f[small as int]) implies #[trigger] clause_holds(
                    m,
                    f[big as int],
                ) by {
                    lemma_fits_implies(m, a0, b0);
                }
                lemma_drop_implied(vars0, f, small as int, big as int);
                lemma_settled_swap_remove(vars0, mid, u0, big as int, -1);
                assert(formula_of(mid.update(big as int, mid.last()).drop_last()) =~= f.update(
                    big as int,
                    f.last(),
                ).drop_last());
            }
            assert(first_is_small);
            clauses.swap_remove(*cj);
            if *ci == clauses.len() {
                *ci = *cj;
            }
            None
        },
        UnifyOneResult::DeleteBigger => {
            *changed = true;
            proof {
                lemma_same_views(vars0, before, mid, u0);
                assert forall|m: Seq<bool>| clause_holds(m, f[small as int]) implies #[trigger] clause_holds(
                    m,
                    f[big as int],
                ) by {
                    lemma_fits_implies(m, a0, b0);
                }
                lemma_drop_implied(vars0, f, small as int, big as int);
                lemma_settled_swap_remove(vars0, mid, u0, big as int, -1);
                assert(formula_of(mid.update(big as int, mid.last()).drop_last()) =~= f.update(
                    big as int,
                    f.last(),
                ).drop_last());
            }
            clauses.swap_remove(big);
            if first_is_small {
                if *ci == clauses.len() {
                    *ci = *cj;
                }
            } else {
                *cj = *ci + 1;
            }
            None
        },
    }
}

/// What is known of stored clauses is known of any clauses with the same
/// literals.
proof fn lemma_same_views(
    vars: Seq<Variable>,
    a: Seq<Vec<Literal>>,
    b: Seq<Vec<Literal>>,
    unaries: Seq<VariableId>,
)
    requires
        a.len() == b.len(),
        forall|k: int| 0 <= k < a.len() ==> (#[trigger] a[k])@ == b[k]@,
        settled(vars, a, unaries),
        long_but(a, -1),
    ensures
        settled(vars, b, unaries),
        long_but(b, -1),
        formula_of(a) == formula_of(b),
{
    assert(formula_of(a) =~= formula_of(b)) by {
        assert forall|k: int| 0 <= k < a.len() implies formula_of(a)[k] == formula_of(b)[k] by {
            assert(a[k]@ == b[k]@);
        }
    }
    assert forall|c: int| 0 <= c < b.len() implies ascending(#[trigger] b[c]@) && lits_in_range(
        b[c]@,
        vars.len(),
    ) && fixed_among(b[c]@, vars, unaries, Seq::<VariableId>::empty()) && b[c]@.len() >= 2 by {
        assert(a[c]@ == b[c]@);
    }
}

/// A state has the models it has.
pub proof fn lemma_models_reflexive(vars: Seq<Variable>, f: Seq<Seq<Literal>>)
    ensures
        same_models(vars, f, vars, f),
{
}

/// Taking one literal out of the clause at `t` keeps the state settled.
proof fn lemma_settled_shrink_at(
    vars: Seq<Variable>,
    before: Seq<Vec<Literal>>,
    after: Seq<Vec<Literal>>,
    unaries: Seq<VariableId>,
    s: int,
    t: int,
    d: int,
)
    requires
        0 <= t < before.len(),
        0 <= s < before.len(),
        s != t,
        after.len() == before.len(),
        forall|k: int| 0 <= k < before.len() && k != t && k != s ==> after[k] == before[k],
        after[s]@ == before[s]@,
        0 <= d < before[t]@.len(),
        after[t]@ == before[t]@.remove(d),
        settled(vars, before, unaries),
        long_but(before, -1),
    ensures
        settled(vars, after, unaries),
        long_but(after, t),
        after[t]@.len() >= 1,
        total_size(formula_of(after)) < total_size(formula_of(before)),
{
    let given = before[t]@;
    let left = after[t]@;
    lemma_remove_ascending(given, d);
    assert(fixed_among(given, vars, unaries, Seq::<VariableId>::empty()));
    assert forall|k: int| 0 <= k < left.len() implies (#[trigger] left[k]).var() < vars.len() && (
    vars[left[k].var()].assigned() ==> unaries.contains(left[k].spec_id())) by {
        let kk = if k < d { k } else { k + 1 };
        assert(left[k] == given[kk]);
    }
    assert forall|c: int| 0 <= c < after.len() implies ascending(#[trigger] after[c]@)
        && lits_in_range(after[c]@, vars.len()) && fixed_among(
        after[c]@,
        vars,
        unaries,
        Seq::<VariableId>::empty(),
    ) by {
        if c == s {
            assert(after[c]@ == before[c]@);
            assert(fixed_among(before[c]@, vars, unaries, Seq::<VariableId>::empty()));
        } else if c != t {
            assert(after[c] == before[c]);
        }
    }
    assert forall|c: int| 0 <= c < after.len() && c != t implies (#[trigger] after[c])@.len()
        >= 2 by {
        if c == s {
            assert(after[c]@ == before[c]@);
        } else {
            assert(after[c] == before[c]);
        }
    }
    let f = formula_of(before);
    assert(formula_of(after) =~= f.update(t, left));
    lemma_size_update(f, t, left);
}

/// Exchanging two clauses keeps the state settled, the models and the size.
proof fn lemma_settled_swap(
    vars: Seq<Variable>,
    before: Seq<Vec<Literal>>,
    unaries: Seq<VariableId>,
    i: int,
    j: int,
)
    requires
        0 <= i < before.len(),
        0 <= j < before.len(),
        i != j,
        settled(vars, before, unaries),
        long_but(before, -1),
    ensures
        settled(vars, before.update(i, before[j]).update(j, before[i]), unaries),
        long_but(before.update(i, before[j]).update(j, before[i]), -1),
        same_models(
            vars,
            formula_of(before),
            vars,
            formula_of(before.update(i, before[j]).update(j, before[i])),
        ),
        total_size(formula_of(before.update(i, before[j]).update(j, before[i]))) == total_size(
            formula_of(before),
        ),
{
    let after = before.update(i, before[j]).update(j, before[i]);
    assert forall|c: int| 0 <= c < after.len() implies ascending(#[trigger] after[c]@)
        && lits_in_range(after[c]@, vars.len()) && fixed_among(
        after[c]@,
        vars,
        unaries,
        Seq::<VariableId>::empty(),
    ) && after[c]@.len() >= 2 by {
        let src = if c == i { j } else if c == j { i } else { c };
        assert(after[c] == before[src]);
    }
    let f = formula_of(before);
    let g = formula_of(after);
    assert(g =~= f.update(i, f[j]).update(j, f[i]));
    lemma_size_update(f, i, f[j]);
    lemma_size_update(f.update(i, f[j]), j, f[i]);
    assert forall|m: Seq<bool>| m.len() == vars.len() implies (#[trigger] models(m, vars, f)
        <==> models(m, vars, g)) by {
        if formula_holds(m, f) {
            assert forall|c: int| 0 <= c < g.len() implies clause_holds(m, #[trigger] g[c]) by {
                let src = if c == i { j } else if c == j { i } else { c };
                assert(g[c] == f[src]);
            }
        }
        if formula_holds(m, g) {
            assert forall|c: int| 0 <= c < f.len() implies clause_holds(m, #[trigger] f[c]) by {
                let src = if c == i { j } else if c == j { i } else { c };
                assert(f[c] == g[src]);
            }
        }
    }
}

/// Holds every clause against every other, as `unify_one` describes, and
/// fixes the variables of the clauses that are left with one literal. When all
/// clauses have been gone through, what follows from the newly fixed
/// variables is taken out of the clauses, and the clauses are gone through
/// again.
///
/// The clauses are gone through again as long as a pass has changed
/// anything, so that in the end no two clauses can be unified. Either
/// clauses were dropped, or literals were, or the clauses come back as they
/// were.
pub fn unification(variables: &mut Vec<Variable>, clauses: &mut Vec<Vec<Literal>>) -> (r: Option<
    SolverResult,
>)
    requires
        tidy(old(variables)@, old(clauses)@),
        untouched(old(variables)@, old(clauses)@),
    ensures
        r == None::<SolverResult> || r == Some(SolverResult::Unsat),
        r == Some(SolverResult::Unsat) ==> no_models(old(variables)@, formula_of(old(clauses)@)),
        final(variables)@.len() == old(variables)@.len(),
        final(clauses)@.len() <= old(clauses)@.len(),
        r == None::<SolverResult> ==> {
            &&& same_models(
                old(variables)@,
                formula_of(old(clauses)@),
                final(variables)@,
                formula_of(final(clauses)@),
            )
            &&& grown(old(variables)@, final(variables)@)
            &&& tidy(final(variables)@, final(clauses)@)
            &&& untouched(final(variables)@, final(clauses)@)
            &&& apart(formula_of(final(clauses)@))
            &&& ({
                ||| final(clauses)@.len() < old(clauses)@.len()
                ||| total_size(formula_of(final(clauses)@)) < total_size(formula_of(old(clauses)@))
                ||| formula_of(final(clauses)@) == formula_of(old(clauses)@)
            })
        },
{
    let ghost vars0 = variables@;
    let ghost f0 = formula_of(clauses@);
    let ghost none = Seq::<VariableId>::empty();
    proof {
        lemma_models_reflexive(vars0, f0);
        lemma_grown_chain(vars0, vars0, vars0);
    }
    loop
        invariant_except_break
            clauses@.len() < f0.len() || total_size(formula_of(clauses@)) < total_size(f0) || formula_of(clauses@)
                == f0,
        invariant
            variables@.len() == vars0.len(),
            clauses@.len() <= old(clauses)@.len(),
            vars0 == old(variables)@,
            f0 == formula_of(old(clauses)@),
            same_models(vars0, f0, variables@, formula_of(clauses@)),
            grown(vars0, variables@),
            tidy(variables@, clauses@),
            untouched(variables@, clauses@),
        ensures
            clauses@.len() < f0.len() || total_size(formula_of(clauses@)) < total_size(f0) || formula_of(clauses@)
                == f0,
            apart(formula_of(clauses@)),
        decreases clauses@.len(), total_size(formula_of(clauses@)),
    {
        let ghost head_len = clauses@.len();
        let ghost head = formula_of(clauses@);
        let mut unaries: Vec<VariableId> = Vec::new();
        let mut changed = false;
        let mut ci: usize = 0;
        proof {
            assert forall|c: int| 0 <= c < clauses@.len() implies fixed_among(
                #[trigger] clauses@[c]@,
                variables@,
                unaries@,
                none,
            ) by {
            }
        }
        while ci < clauses.len()
            invariant
                variables@.len() == vars0.len(),
                clauses@.len() <= old(clauses)@.len(),
                vars0 == old(variables)@,
                f0 == formula_of(old(clauses)@),
                same_models(vars0, f0, variables@, formula_of(clauses@)),
                grown(vars0, variables@),
                settled(variables@, clauses@, unaries@),
                long_but(clauses@, -1),
                clauses@.len() + unaries@.len() <= head_len,
                head_len <= f0.len(),
                head.len() == head_len,
                head_len < f0.len() || total_size(head) < total_size(f0) || head == f0,
                total_size(formula_of(clauses@)) <= total_size(head),
                changed == (total_size(formula_of(clauses@)) < total_size(head)),
                !changed ==> formula_of(clauses@) == head && unaries@.len() == 0 && held_apart(
                    head,
                    ci as int,
                    0,
                ),
            decreases total_size(formula_of(clauses@)), clauses@.len() - ci,
        {
            let ghost size0 = total_size(formula_of(clauses@));
            let ghost len0 = clauses@.len();
            let ghost ci0 = ci;
            let mut cj: usize = ci + 1;
            while cj < clauses.len()
                invariant
                    variables@.len() == vars0.len(),
                    clauses@.len() <= old(clauses)@.len(),
                    vars0 == old(variables)@,
                    f0 == formula_of(old(clauses)@),
                    same_models(vars0, f0, variables@, formula_of(clauses@)),
                    grown(vars0, variables@),
                    settled(variables@, clauses@, unaries@),
                    long_but(clauses@, -1),
                    clauses@.len() + unaries@.len() <= head_len,
                    ci <= ci0,
                    ci0 < len0,
                    len0 <= usize::MAX,
                    ci < clauses@.len() || cj >= clauses@.len(),
                    total_size(formula_of(clauses@)) <= size0,
                    total_size(formula_of(clauses@)) == size0 ==> ci == ci0 && clauses@.len() == len0,
                    head_len <= f0.len(),
                    head.len() == head_len,
                    head_len < f0.len() || total_size(head) < total_size(f0) || head == f0,
                    total_size(formula_of(clauses@)) <= total_size(head),
                    changed == (total_size(formula_of(clauses@)) < total_size(head)),
                    !changed ==> formula_of(clauses@) == head && unaries@.len() == 0 && ci < cj && held_apart(
                        head,
                        ci as int,
                        cj as int,
                    ),
                decreases total_size(formula_of(clauses@)), clauses@.len() - cj,
            {
                let ghost vars1 = variables@;
                let ghost f1 = formula_of(clauses@);
                let ghost ci1 = ci;
                let ghost cj1 = cj;
                let r = unify_at(variables, clauses, &mut unaries, &mut ci, &mut cj, &mut changed);
                proof {
                    lemma_same_models_chain(vars0, f0, vars1, f1, variables@, formula_of(clauses@));
                }
                if r.is_some() {
                    return r;
                }
                proof {
                    lemma_grown_chain(vars0, vars1, variables@);
                    if f1 == head && total_size(formula_of(clauses@)) == total_size(f1) {
                        assert(pair_apart(head[ci1 as int], head[cj1 as int]));
                    }
                }
            }
            ci += 1;
        }
        proof {
            if !changed {
                assert(apart(head));
            }
        }
        if unaries.len() != 0 {
            let ghost vars1 = variables@;
            let ghost f1 = formula_of(clauses@);
            let r = unary_propagation(variables, clauses, unaries);
            proof {
                lemma_same_models_chain(vars0, f0, vars1, f1, variables@, formula_of(clauses@));
            }
            if r.is_some() {
                return r;
            }
            proof {
                lemma_grown_chain(vars0, vars1, variables@);
            }
        } else {
            proof {
                assert forall|c: int| 0 <= c < clauses@.len() implies (#[trigger] clauses@[c])@.len()
                    >= 2 && forall|k: int|
                    0 <= k < clauses@[c]@.len() ==> !variables@[(#[trigger] clauses@[c]@[k]).var()].assigned() by {
                    assert(fixed_among(clauses@[c]@, variables@, unaries@, none));
                }
            }
            if !changed {
                break ;
            }
        }
    }
    None
}

/// The passes that run before the search.
///
/// Every clause is sorted and cleaned up. Then the variables of unit clauses
/// are set, with all that follows, and the clauses are unified. The answer is
/// `Unsat` where a clause has turned out empty or two unit clauses
/// contradict each other, `Sat` where no clause is left, and `None` where the
/// search has to decide. In the last two cases the clauses that are left,
/// together with the variables that have been set, have the models that the
/// given clauses have, and no two of them can be unified: none fits into
/// another, not even but for the sign of one literal.
pub fn precompute(variables: &mut Vec<Variable>, clauses: &mut Vec<Vec<Literal>>) -> (r: Option<
    SolverResult,
>)
    requires
        formula_in_range(formula_of(old(clauses)@), old(variables)@.len()),
        forall|v: int| 0 <= v < old(variables)@.len() ==> !(#[trigger] old(variables)@[v]).assigned(),
    ensures
        r != Some(SolverResult::Unknown),
        final(variables)@.len() == old(variables)@.len(),
        final(clauses)@.len() <= old(clauses)@.len(),
        r == Some(SolverResult::Unsat) ==> no_models(old(variables)@, formula_of(old(clauses)@)),
        r != Some(SolverResult::Unsat) ==> {
            &&& same_models(
                old(variables)@,
                formula_of(old(clauses)@),
                final(variables)@,
                formula_of(final(clauses)@),
            )
            &&& grown(old(variables)@, final(variables)@)
            &&& tidy(final(variables)@, final(clauses)@)
            &&& untouched(final(variables)@, final(clauses)@)
        },
        r == Some(SolverResult::Sat) <==> (r != Some(SolverResult::Unsat) && final(clauses)@.len()
            == 0),
        r != Some(SolverResult::Unsat) ==> apart(formula_of(final(clauses)@)),
{
    let ghost vars0 = variables@;
    let ghost f0 = formula_of(clauses@);
    let mut i: usize = 0;
    while i < clauses.len()
        invariant
            i <= clauses.len(),
            clauses@.len() == old(clauses)@.len(),
            *variables == *old(variables),
            f0 == formula_of(old(clauses)@),
            formula_in_range(formula_of(clauses@), variables@.len()),
            forall|c: int| 0 <= c < i ==> sorted(#[trigger] clauses@[c]@),
            forall|m: Seq<bool>| formula_holds(m, f0) <==> formula_holds(m, formula_of(clauses@)),
        decreases clauses.len() - i,
    {
        let ghost before = clauses@;
        let ghost f = formula_of(before);
        sort_literals(&mut clauses[i]);
        proof {
            let g = formula_of(clauses@);
            let c0 = f[i as int];
            let c1 = clauses@[i as int]@;
            lemma_same_literals(c0, c1);
            assert(g =~= f.update(i as int, c1));
            assert forall|m: Seq<bool>| formula_holds(m, f0) <==> formula_holds(m, g) by {
                lemma_same_set_holds(m, c0, c1);
                lemma_update_holds(m, f, i as int, c1);
                assert(f.update(i as int, c0) =~= f);
                lemma_update_holds(m, f, i as int, c0);
            }
            assert forall|c: int| 0 <= c < g.len() implies lits_in_range(
                #[trigger] g[c],
                variables@.len(),
            ) by {
                if c == i {
                    assert(lits_in_range(f[c], variables@.len()));
                    assert forall|k: int| 0 <= k < c1.len() implies (#[trigger] c1[k]).var()
                        < variables@.len() by {
                        assert(c0.contains(c1[k]));
                        let w = choose|w: int| 0 <= w < c0.len() && c0[w] == c1[k];
                    }
                } else {
                    assert(g[c] == f[c]);
                }
            }
            assert forall|c: int| 0 <= c < i + 1 implies sorted(#[trigger] clauses@[c]@) by {
                if c < i {
                    assert(clauses@[c] == before[c]);
                }
            }
        }
        i += 1;
    }
    let ghost f1 = formula_of(clauses@);
    cleanup(clauses);
    let ghost f2 = formula_of(clauses@);
    proof {
        assert(formula_in_range(f2, variables@.len()));
        assert forall|c: int| 0 <= c < clauses@.len() implies ascending(#[trigger] clauses@[c]@)
            && lits_in_range(clauses@[c]@, variables@.len()) by {
            assert(f2[c] == clauses@[c]@);
            assert(lits_in_range(f2[c], variables@.len()));
        }
        assert forall|m: Seq<bool>| m.len() == vars0.len() implies (#[trigger] models(m, vars0, f0)
            <==> models(m, vars0, f2)) by {
            assert(formula_holds(m, f0) <==> formula_holds(m, f1));
            assert(formula_holds(m, f1) <==> formula_holds(m, f2));
        }
        assert forall|c: int| 0 <= c < clauses@.len() implies fixed_among(
            #[trigger] clauses@[c]@,
            vars0,
            Seq::<VariableId>::empty(),
            Seq::<VariableId>::empty(),
        ) by {
        }
    }
    let result = unary_propagation(variables, clauses, Vec::new());
    let ghost vars3 = variables@;
    let ghost f3 = formula_of(clauses@);
    proof {
        lemma_same_models_chain(vars0, f0, vars0, f2, vars3, f3);
    }
    if result.is_some() {
        return result;
    }
    let result = unification(variables, clauses);
    proof {
        lemma_same_models_chain(vars0, f0, vars3, f3, variables@, formula_of(clauses@));
    }
    if result.is_some() {
        return result;
    }
    proof {
        lemma_grown_chain(vars0, vars3, variables@);
    }
    if clauses.len() == 0 {
        Some(SolverResult::Sat)
    } else {
        None
    }
}

} // verus!
