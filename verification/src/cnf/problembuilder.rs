use std::collections::HashMap;
use std::hash::Hash;
use vstd::prelude::*;
use vstd::std_specs::hash::obeys_key_model;

use super::logic::formula_of;
use super::problem::precompute::formula_in_range;
use super::valuation::lits_in_range;
use super::{Literal, Problem, VariableId};

verus! {

/// Collects the clauses of a problem. Variables are named by values of the
/// type `T`; each name gets a number when it is first used.
pub struct ProblemBuilder<T: Hash + Eq> {
    pub(crate) names2index: HashMap<T, VariableId>,
    pub(crate) names: Vec<T>,
    pub(crate) clauses: Vec<Vec<Literal>>,
}

/// Adds literals to the clause that `new_clause` has begun.
pub struct ClauseBuilder<'a, T: Hash + Eq> {
    pub(crate) problembuilder: &'a mut ProblemBuilder<T>,
    pub(crate) index: usize,
}

/// The number that a name has among `names`: its place where it is one of
/// them, else the next free number.
pub open spec fn number_of(names: Seq<usize>, name: usize) -> int {
    if names.contains(name) {
        names.index_of(name)
    } else {
        names.len() as int
    }
}

/// The names after `name` was used: one more where it is new.
pub open spec fn with_name(names: Seq<usize>, name: usize) -> Seq<usize> {
    if names.contains(name) {
        names
    } else {
        names.push(name)
    }
}

/// The index holds the number of every name, and nothing else.
pub open spec fn indexed(index: Map<usize, VariableId>, names: Seq<usize>) -> bool {
    &&& forall|name: usize| #[trigger]
        index.contains_key(name) ==> index[name].spec_to_usize() < names.len() && names[index[name].spec_to_usize() as int]
            == name
    &&& forall|i: int|
        0 <= i < names.len() ==> index.contains_key(#[trigger] names[i]) && index[names[i]].spec_to_usize() == i
}

/// Among indexed names, the index tells the number of a name, and no name
/// stands twice.
pub proof fn lemma_indexed(index: Map<usize, VariableId>, names: Seq<usize>, name: usize)
    requires
        indexed(index, names),
    ensures
        names.contains(name) <==> index.contains_key(name),
        index.contains_key(name) ==> number_of(names, name) == index[name].spec_to_usize(),
        forall|i: int, j: int| 0 <= i < names.len() && 0 <= j < names.len() && names[i] == names[j] ==> i == j,
{
    if index.contains_key(name) {
        let i = index[name].spec_to_usize() as int;
        assert(names[i] == name);
        let j = names.index_of(name);
        assert(names[j] == name);
        assert(index[names[j]].spec_to_usize() == j);
    }
    if names.contains(name) {
        let i = choose|i: int| 0 <= i < names.len() && names[i] == name;
        assert(index.contains_key(names[i]));
    }
    assert forall|i: int, j: int| 0 <= i < names.len() && 0 <= j < names.len() && names[i] == names[j] implies i
        == j by {
        assert(index[names[i]].spec_to_usize() == i);
        assert(index[names[j]].spec_to_usize() == j);
    }
}

/// A number's clone is the number.
proof fn lemma_clone_same(a: usize, b: usize)
    requires
        cloned(a, b),
    ensures
        a == b,
{
}

/// What giving a name its number does to a builder over numbers whose index
/// holds the numbers of its names: the name has the number `number_of` says,
/// the names are those `with_name` says, and the index again holds their
/// numbers.
pub proof fn lemma_numbered(
    before: ProblemBuilder<usize>,
    after: ProblemBuilder<usize>,
    name: usize,
    id: VariableId,
)
    requires
        indexed(before.index(), before.names()),
        after.numbered(&before, name, id),
    ensures
        indexed(after.index(), after.names()),
        after.names() == with_name(before.names(), name),
        id.spec_to_usize() == number_of(before.names(), name),
        id.spec_to_usize() < after.names().len(),
        after.names()[id.spec_to_usize() as int] == name,
        before.names().len() <= after.names().len(),
        forall|i: int| 0 <= i < before.names().len() ==> after.names()[i] == #[trigger] before.names()[i],
{
    lemma_indexed(before.index(), before.names(), name);
    if before.index().contains_key(name) {
        assert(after.names() == with_name(before.names(), name));
    } else {
        assert(after.names() =~= before.names().push(after.names().last()));
        lemma_clone_same(name, after.names().last());
        assert(after.names() == with_name(before.names(), name));
        assert forall|other: usize| #[trigger] after.index().contains_key(other) implies after.index()[other].spec_to_usize()
            < after.names().len() && after.names()[after.index()[other].spec_to_usize() as int] == other by {
            if other != name {
                assert(before.index().contains_key(other));
            }
        }
        assert forall|i: int| 0 <= i < after.names().len() implies after.index().contains_key(
            #[trigger] after.names()[i],
        ) && after.index()[after.names()[i]].spec_to_usize() == i by {
            if i < before.names().len() {
                assert(after.names()[i] == before.names()[i]);
                assert(before.index().contains_key(before.names()[i]));
            }
        }
    }
}

impl<T: Hash + Eq + Clone> ProblemBuilder<T> {
    /// The names that have been used, in the order of their numbers.
    pub open(crate) spec fn names(&self) -> Seq<T> {
        self.names@
    }

    /// The clauses collected so far.
    pub open(crate) spec fn clauses(&self) -> Seq<Seq<Literal>> {
        formula_of(self.clauses@)
    }

    /// The clauses as they are stored.
    pub open(crate) spec fn stored(&self) -> Seq<Vec<Literal>> {
        self.clauses@
    }

    /// The numbers of the names.
    pub open(crate) spec fn index(&self) -> Map<T, VariableId> {
        self.names2index@
    }

    pub open(crate) spec fn spec_variable_count(&self) -> usize {
        self.names@.len() as usize
    }

    /// Every literal is over a variable that has a name, and the numbers are
    /// small enough for literals.
    pub open(crate) spec fn wf(&self) -> bool {
        &&& self.names@.len() <= usize::MAX / 2
        &&& formula_in_range(formula_of(self.clauses@), self.names@.len())
    }

    /// What `variable_id` does with a name: a name whose number is known
    /// keeps its number; any other name gets the next number. The number of a
    /// name counts as known when the index holds it and it is the number of a
    /// name, which is so for every number the index was given.
    pub open(crate) spec fn numbered(&self, before: &ProblemBuilder<T>, name: T, id: VariableId) -> bool {
        if before.index().contains_key(name) && before.index()[name].spec_to_usize()
            < before.names().len() {
            &&& id == before.index()[name]
            &&& self.names() == before.names()
            &&& self.index() == before.index()
        } else {
            &&& id.spec_to_usize() == before.names().len()
            &&& self.index() == before.index().insert(name, id)
            &&& self.names().len() == before.names().len() + 1
            &&& self.names().drop_last() == before.names()
            &&& cloned(name, self.names().last())
        }
    }

    pub fn new() -> (builder: ProblemBuilder<T>)
        ensures
            builder.wf(),
            builder.names() == Seq::<T>::empty(),
            builder.clauses() == Seq::<Seq<Literal>>::empty(),
            builder.index() == Map::<T, VariableId>::empty(),
    {
        let builder = ProblemBuilder { names2index: HashMap::new(), names: Vec::new(), clauses: Vec::new() };
        proof {
            assert(formula_of(builder.clauses@) =~= Seq::<Seq<Literal>>::empty());
        }
        builder
    }

    /// Begins a clause without literals.
    pub fn new_clause(&mut self) -> (clause: ClauseBuilder<'_, T>)
        requires
            old(self).wf(),
        ensures
            clause.wf(),
            clause.builder().names() == old(self).names(),
            clause.builder().index() == old(self).index(),
            clause.builder().clauses() == old(self).clauses().push(Seq::<Literal>::empty()),
            clause.spec_index() == old(self).clauses().len(),
            *final(self) == *final(clause.target()),
    {
        self.clauses.push(Vec::new());
        let clauses_len = self.clauses.len() - 1;
        proof {
            let f = formula_of(self.clauses@);
            assert(f =~= old(self).clauses().push(Seq::<Literal>::empty()));
            assert forall|c: int| 0 <= c < f.len() implies lits_in_range(
                #[trigger] f[c],
                self.names@.len(),
            ) by {
                if c < old(self).clauses().len() {
                    assert(f[c] == old(self).clauses()[c]);
                }
            }
        }
        ClauseBuilder { problembuilder: self, index: clauses_len }
    }

    pub fn reserve_clauses(&mut self, additional: usize)
        ensures
            final(self).names() == old(self).names(),
            final(self).clauses() == old(self).clauses(),
            final(self).index() == old(self).index(),
            old(self).wf() ==> final(self).wf(),
    {
        self.clauses.reserve(additional);
    }

    pub fn reserve_variables(&mut self, additional: usize)
        ensures
            final(self).names() == old(self).names(),
            final(self).clauses() == old(self).clauses(),
            final(self).index() == old(self).index(),
            old(self).wf() ==> final(self).wf(),
    {
        self.names.reserve(additional);
        self.names2index.reserve(additional);
    }

    /// Makes the problem of the clauses that were collected.
    pub fn as_problem(self) -> (problem: Problem<T>)
        requires
            self.wf(),
        ensures
            problem.wf(),
            problem.names() == self.names(),
            problem.origin() == self.clauses(),
            problem.conflicts() == 0,
            problem.solution() == Some(crate::SolverResult::Sat) ==> problem.kept().len() == 0
                && problem.spec_active() == 0,
    {
        Problem::new(self.names, self.clauses)
    }

    /// The number of `name`: the one it has, or the next free one.
    pub fn variable_id(&mut self, name: T) -> (id: VariableId)
        requires
            old(self).wf(),
            old(self).names().len() < usize::MAX / 2,
        ensures
            final(self).wf(),
            id.spec_to_usize() < final(self).names().len(),
            final(self).stored() == old(self).stored(),
            final(self).names().len() <= old(self).names().len() + 1,
            obeys_key_model::<T>() ==> final(self).numbered(old(self), name, id),
    {
        broadcast use vstd::std_specs::hash::group_hash_axioms;

        let known: Option<VariableId> = match self.names2index.get(&name) {
            Some(id) => {
                if id.to_usize() < self.names.len() {
                    Some(*id)
                } else {
                    None
                }
            },
            None => None,
        };
        match known {
            Some(id) => id,
            None => {
                let id = VariableId::from_usize(self.names.len());
                self.names.push(name.clone());
                self.names2index.insert(name, id);
                proof {
                    let f = formula_of(self.clauses@);
                    assert forall|c: int| 0 <= c < f.len() implies lits_in_range(
                        #[trigger] f[c],
                        self.names@.len(),
                    ) by {
                        assert(lits_in_range(old(self).clauses()[c], old(self).names@.len()));
                    }
                    assert(self.names@.drop_last() =~= old(self).names@);
                }
                id
            },
        }
    }

    #[verifier::when_used_as_spec(spec_variable_count)]
    pub fn variable_count(&self) -> (count: usize)
        ensures
            count == self.names().len(),
    {
        self.names.len()
    }
}

impl<T: Hash + Eq + Clone> Default for ProblemBuilder<T> {
    fn default() -> (builder: ProblemBuilder<T>)
        ensures
            builder.wf(),
            builder.names() == Seq::<T>::empty(),
            builder.clauses() == Seq::<Seq<Literal>>::empty(),
    {
        ProblemBuilder::new()
    }
}

impl<'a, T: Hash + Eq + Clone> ClauseBuilder<'a, T> {
    /// The borrowed builder.
    pub open(crate) spec fn target(&self) -> &mut ProblemBuilder<T> {
        self.problembuilder
    }

    /// The builder whose clause this is.
    pub open(crate) spec fn builder(&self) -> ProblemBuilder<T> {
        *self.problembuilder
    }

    /// Which of the builder's clauses this is.
    pub open(crate) spec fn spec_index(&self) -> usize {
        self.index
    }

    /// The builder is in order and holds the clause.
    pub open(crate) spec fn wf(&self) -> bool {
        self.builder().wf() && self.index < self.builder().clauses().len()
    }

    /// The literals that the clause has so far.
    pub open(crate) spec fn lits(&self) -> Seq<Literal> {
        self.builder().clauses()[self.index as int]
    }

    /// Adds the literal over the variable `name`, negated or not, at the end
    /// of the clause.
    pub fn add_literal(&mut self, name: T, negated: bool) -> (clause: &mut Self)
        requires
            old(self).wf(),
            old(self).builder().names().len() < usize::MAX / 2,
        ensures
            clause.wf(),
            clause.spec_index() == old(self).spec_index(),
            clause.builder().clauses().len() == old(self).builder().clauses().len(),
            forall|c: int|
                0 <= c < clause.builder().clauses().len() && c != clause.spec_index()
                    ==> #[trigger] clause.builder().clauses()[c] == old(self).builder().clauses()[c],
            clause.lits().len() == old(self).lits().len() + 1,
            clause.lits().drop_last() == old(self).lits(),
            clause.lits().last().spec_negated() == negated,
            clause.lits().last().var() < clause.builder().names().len(),
            clause.builder().names().len() <= old(self).builder().names().len() + 1,
            obeys_key_model::<T>() ==> clause.builder().numbered(
                &old(self).builder(),
                name,
                clause.lits().last().spec_id(),
            ),
            *final(self) == *final(clause),
            *final(clause.target()) == *final(old(self).target()),
    {
        let ghost before = *self.problembuilder;
        let id = self.problembuilder.variable_id(name);
        let ghost mid = *self.problembuilder;
        let literal = Literal::new(id, negated);
        self.problembuilder.clauses[self.index].push(literal);
        proof {
            let builder = *self.problembuilder;
            let f0 = formula_of(mid.clauses@);
            let f = formula_of(builder.clauses@);
            assert(f[self.index as int] =~= f0[self.index as int].push(literal));
            assert(f[self.index as int].drop_last() =~= f0[self.index as int]);
            assert forall|c: int| 0 <= c < f.len() implies lits_in_range(
                #[trigger] f[c],
                builder.names@.len(),
            ) by {
                assert(lits_in_range(f0[c], mid.names@.len()));
                if c != self.index {
                    assert(f[c] == f0[c]);
                }
            }
            assert forall|c: int| 0 <= c < f.len() && c != self.index implies #[trigger] f[c]
                == before.clauses()[c] by {
                assert(f[c] == f0[c]);
            }
        }
        self
    }

    /// The number of literals that the clause has so far.
    pub fn len(&self) -> (len: usize)
        requires
            self.wf(),
        ensures
            len == self.lits().len(),
    {
        self.problembuilder.clauses[self.index].len()
    }
}

} // verus!
