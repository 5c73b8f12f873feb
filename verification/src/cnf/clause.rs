use vstd::prelude::*;

use super::valuation::{lemma_distinct_depths_bound, 
    all_at_zero, deepest_assigned, depths_of, distinct_depths, distinct_vars, lit_assigned,
    lit_depth, lit_false, lit_list, lit_true, lits_in_range, offset, same_assignment, sorted,
};
use super::variable::without_last;
use super::watching::{
    holds, kept_or_cut, link, links_are, lists_distinct, other_links_kept, place, unlink,
    unlinked, lists_grown,
};
use super::{Literal, Variable, VariableId};

verus! {

/// A disjunction of literals, the two positions in it that are watched, and
/// its glue: the number of different decision depths among its literals when
/// it was derived, lowered when a later count comes out smaller.
#[derive(Debug)]
pub struct Clause {
    pub(crate) literals: Vec<Literal>,
    pub(crate) watched: [usize; 2],
    pub(crate) glue: VariableId,
}

/// What became of a clause when one of its watched literals turned false.
#[derive(Debug)]
pub enum Apply {
    /// Nothing to do: the clause is satisfied or watches a literal that is
    /// still open.
    Continue,
    /// Every literal is false.
    Unsat,
    /// Every literal but this one is false, and this one is open.
    Unit(Literal),
}

/// Sorts literals by their packed words, with the slice method
/// `sort_unstable_by_key` of the standard library. The contract claims what the
/// method documents: afterwards the same literals stand in ascending order.
#[verifier::external_body]
pub(crate) fn sort_literals(literals: &mut Vec<Literal>)
    ensures
        sorted(final(literals)@),
        final(literals)@.to_multiset() == old(literals)@.to_multiset(),
{
    literals.sort_unstable_by_key(|lit| lit.0);
}

/// What a sorted copy keeps: the length, and which literals occur.
pub proof fn lemma_same_literals(a: Seq<Literal>, b: Seq<Literal>)
    requires
        a.to_multiset() == b.to_multiset(),
    ensures
        a.len() == b.len(),
        forall|l: Literal| a.contains(l) <==> b.contains(l),
        forall|k: int| 0 <= k < a.len() ==> b.contains(#[trigger] a[k]),
        forall|k: int| 0 <= k < b.len() ==> a.contains(#[trigger] b[k]),
{
    a.to_multiset_ensures();
    b.to_multiset_ensures();
    assert forall|l: Literal| a.contains(l) <==> b.contains(l) by {
        vstd::seq_lib::to_multiset_contains(a, l);
        vstd::seq_lib::to_multiset_contains(b, l);
    }
    assert forall|k: int| 0 <= k < a.len() implies b.contains(#[trigger] a[k]) by {
        assert(a.contains(a[k]));
    }
    assert forall|k: int| 0 <= k < b.len() implies a.contains(#[trigger] b[k]) by {
        assert(b.contains(b[k]));
    }
}

impl Clause {
    /// The literals, in the clause's order.
    pub open(crate) spec fn lits(&self) -> Seq<Literal> {
        self.literals@
    }

    /// The first watched position.
    pub open(crate) spec fn w0(&self) -> int {
        self.watched[0] as int
    }

    /// The second watched position.
    pub open(crate) spec fn w1(&self) -> int {
        self.watched[1] as int
    }

    pub open(crate) spec fn lit0(&self) -> Literal {
        self.literals@[self.watched[0] as int]
    }

    pub open(crate) spec fn lit1(&self) -> Literal {
        self.literals@[self.watched[1] as int]
    }

    pub open(crate) spec fn spec_glue(&self) -> VariableId {
        self.glue
    }

    pub open(crate) spec fn spec_len(&self) -> usize {
        self.literals@.len() as usize
    }

    /// What holds of every clause of a problem with `nvars` variables: it has
    /// two literals or more, over different variables below `nvars`, and
    /// watches two different positions.
    pub open(crate) spec fn wf(&self, nvars: nat) -> bool {
        &&& self.lits().len() >= 2
        &&& 0 <= self.w0() < self.lits().len()
        &&& 0 <= self.w1() < self.lits().len()
        &&& self.w0() != self.w1()
        &&& lits_in_range(self.lits(), nvars)
        &&& distinct_vars(self.lits())
    }

    /// A clause over the given literals that watches the first two positions.
    pub fn new(literals: Vec<Literal>, glue: VariableId) -> (clause: Clause)
        ensures
            clause.lits() == literals@,
            clause.w0() == 0,
            clause.w1() == 1,
            clause.spec_glue() == glue,
    {
        Clause { literals, watched: [0, 1], glue }
    }

    /// The position `p` holds a literal of the largest depth, and is the first
    /// that does.
    pub open(crate) spec fn deepest(vars: Seq<Variable>, lits: Seq<Literal>, p: int) -> bool {
        &&& 0 <= p < lits.len()
        &&& forall|k: int| 0 <= k < lits.len() ==> lit_depth(vars, lits[k]) <= lit_depth(vars, lits[p])
        &&& forall|k: int| 0 <= k < p ==> lit_depth(vars, lits[k]) < lit_depth(vars, lits[p])
    }

    /// `d` is the largest depth among the literals at positions other than `p`
    /// that lie above depth 0, and 0 where there is none; `q` is `p` in that
    /// case, and otherwise another position, of depth `d`.
    pub open(crate) spec fn second_deepest(
        vars: Seq<Variable>,
        lits: Seq<Literal>,
        p: int,
        q: int,
        d: usize,
    ) -> bool {
        &&& 0 <= q < lits.len()
        &&& forall|k: int| 0 <= k < lits.len() && k != p ==> lit_depth(vars, lits[k]) <= d
        &&& if d == 0 {
            q == 0
        } else {
            q != p && lit_depth(vars, lits[q]) == d
        }
    }

    /// Builds the clause that a conflict has taught. The literals are sorted;
    /// the clause watches a literal of the largest depth and, of the others, one
    /// of the largest depth; its glue is the number of different depths.
    /// Returns the depth to jump back to, which is that of the second watched
    /// literal (0 where no other literal lies above depth 0), then the first
    /// watched literal, and the clause.
    pub fn from_learned(
        literals: Vec<Literal>,
        variables: &Vec<Variable>,
        max_depth: VariableId,
    ) -> (r: (VariableId, Literal, Clause))
        requires
            literals.len() >= 1,
            lits_in_range(literals@, variables@.len()),
            max_depth.spec_to_usize() < usize::MAX,
            forall|k: int|
                0 <= k < literals.len() ==> lit_depth(variables@, #[trigger] literals[k])
                    <= max_depth.spec_to_usize(),
        ensures
            sorted(r.2.lits()),
            r.2.lits().to_multiset() == literals@.to_multiset(),
            r.2.spec_glue().spec_to_usize() == distinct_depths(variables@, r.2.lits()),
            1 <= r.2.spec_glue().spec_to_usize() <= r.2.lits().len(),
            Clause::deepest(variables@, r.2.lits(), r.2.w0()),
            Clause::second_deepest(
                variables@,
                r.2.lits(),
                r.2.w0(),
                r.2.w1(),
                r.0.spec_to_usize(),
            ),
            r.1 == r.2.lit0(),
    {
        let ghost given = literals@;
        let mut literals = literals;
        sort_literals(&mut literals);
        proof {
            lemma_same_literals(given, literals@);
            assert forall|k: int| 0 <= k < literals.len() implies (#[trigger] literals[k]).var()
                < variables@.len() && lit_depth(variables@, literals[k])
                <= max_depth.spec_to_usize() by {
                assert(given.contains(literals[k]));
                let j = choose|j: int| 0 <= j < given.len() && given[j] == literals[k];
                assert(given[j].var() < variables@.len());
            }
        }
        let mut marks: Vec<bool> = vec![false; max_depth.to_usize() + 1];
        let mut glue: usize = 0;
        let mut da: usize = 0;
        let mut pa: usize = 0;
        let mut db: usize = 0;
        let mut pb: usize = 0;
        let ghost depths = depths_of(variables@, literals@);
        let mut i: usize = 0;
        proof {
            assert(depths.take(0) =~= Seq::<usize>::empty());
            assert(depths.take(0).to_set() =~= Set::<usize>::empty());
        }
        while i < literals.len()
            invariant
                i <= literals.len(),
                depths == depths_of(variables@, literals@),
                marks.len() == max_depth.spec_to_usize() + 1,
                max_depth.spec_to_usize() < usize::MAX,
                forall|k: int|
                    0 <= k < literals.len() ==> (#[trigger] literals[k]).var() < variables@.len()
                        && lit_depth(variables@, literals[k]) <= max_depth.spec_to_usize(),
                depths.take(i as int).to_set().finite(),
                glue == depths.take(i as int).to_set().len(),
                glue <= i,
                forall|d: int|
                    0 <= d < marks.len() ==> (#[trigger] marks[d] <==> depths.take(
                        i as int,
                    ).to_set().contains(d as usize)),
                pa < literals.len(),
                pb < literals.len(),
                i == 0 ==> pa == 0 && pb == 0 && da == 0 && db == 0,
                da == if i == 0 { 0 } else { lit_depth(variables@, literals[pa as int]) },
                forall|k: int| 0 <= k < i ==> lit_depth(variables@, literals[k]) <= da,
                forall|k: int| 0 <= k < pa ==> lit_depth(variables@, literals[k]) < da,
                pa < i || i == 0,
                forall|k: int| 0 <= k < i && k != pa ==> lit_depth(variables@, literals[k]) <= db,
                db <= da,
                da == 0 ==> pa == 0,
                pb < i || i == 0,
                if db == 0 {
                    pb == 0
                } else {
                    pb != pa && lit_depth(variables@, literals[pb as int]) == db
                },
            decreases literals.len() - i,
        {
            let lit = literals[i];
            let depth: usize = variables[lit.id().to_usize()].get_depth().to_usize();
            proof {
                assert(depths[i as int] == depth);
                assert(depths.take(i + 1) =~= depths.take(i as int).push(depth));
                depths.take(i as int).lemma_push_to_set_commute(depth);
            }
            if !marks[depth] {
                glue = glue + 1;
                marks.set(depth, true);
            }
            if depth > da {
                db = da;
                pb = pa;
                da = depth;
                pa = i;
            } else if depth > db {
                db = depth;
                pb = i;
            }
            i += 1;
        }
        proof {
            assert(depths.take(literals.len() as int) =~= depths);
            lemma_distinct_depths_bound(variables@, literals@);
        }
        let lit = literals[pa];
        (
            VariableId::from_usize(db),
            lit,
            Clause { literals, watched: [pa, pb], glue: VariableId::from_usize(glue) },
        )
    }

    /// Counts the different depths among the literals again, and lowers the
    /// glue to the count where the count is smaller. A glue of 2 or less stays
    /// as it is.
    pub fn update_glue(&mut self, variables: &Vec<Variable>, max_depth: VariableId)
        requires
            lits_in_range(old(self).lits(), variables@.len()),
            max_depth.spec_to_usize() < usize::MAX,
            forall|k: int|
                0 <= k < old(self).lits().len() ==> lit_depth(
                    variables@,
                    #[trigger] old(self).lits()[k],
                ) <= max_depth.spec_to_usize(),
        ensures
            final(self).lits() == old(self).lits(),
            final(self).w0() == old(self).w0(),
            final(self).w1() == old(self).w1(),
            final(self).spec_glue().spec_to_usize() == if old(self).spec_glue().spec_to_usize() > 2
                && distinct_depths(variables@, old(self).lits()) < old(self).spec_glue().spec_to_usize() {
                distinct_depths(variables@, old(self).lits())
            } else {
                old(self).spec_glue().spec_to_usize() as nat
            },
            final(self).spec_glue().spec_to_usize() <= old(self).spec_glue().spec_to_usize(),
    {
        if self.glue.to_usize() <= 2 {
            return ;
        }
        let mut marks: Vec<bool> = vec![false; max_depth.to_usize() + 1];
        let mut glue: usize = 0;
        let ghost depths = depths_of(variables@, self.literals@);
        let mut i: usize = 0;
        proof {
            assert(depths.take(0) =~= Seq::<usize>::empty());
            assert(depths.take(0).to_set() =~= Set::<usize>::empty());
        }
        while i < self.literals.len()
            invariant
                i <= self.literals.len(),
                *self == *old(self),
                depths == depths_of(variables@, self.literals@),
                marks.len() == max_depth.spec_to_usize() + 1,
                max_depth.spec_to_usize() < usize::MAX,
                lits_in_range(self.lits(), variables@.len()),
                forall|k: int|
                    0 <= k < self.lits().len() ==> lit_depth(variables@, #[trigger] self.lits()[k])
                        <= max_depth.spec_to_usize(),
                depths.take(i as int).to_set().finite(),
                glue == depths.take(i as int).to_set().len(),
                glue < self.glue.spec_to_usize(),
                forall|d: int|
                    0 <= d < marks.len() ==> (#[trigger] marks[d] <==> depths.take(
                        i as int,
                    ).to_set().contains(d as usize)),
            decreases self.literals.len() - i,
        {
            let lit = self.literals[i];
            let depth: usize = variables[lit.id().to_usize()].get_depth().to_usize();
            proof {
                assert(depths[i as int] == depth);
                assert(depths.take(i + 1) =~= depths.take(i as int).push(depth));
                depths.take(i as int).lemma_push_to_set_commute(depth);
            }
            if !marks[depth] {
                glue = glue + 1;
                marks.set(depth, true);
                if glue >= self.glue.to_usize() {
                    proof {
                        lemma_depths_grow(depths, i + 1);
                    }
                    return ;
                }
            }
            i += 1;
        }
        proof {
            assert(depths.take(self.literals.len() as int) =~= depths);
        }
        self.glue = VariableId::from_usize(glue);
    }

    /// The clause stands in the lists of its two watched literals, and in no other.
    pub open(crate) spec fn linked(&self, cid: usize, vars: Seq<Variable>) -> bool {
        links_are(vars, cid, set![place(self.lit0()), place(self.lit1())])
    }

    /// The second watched literal is open, or the clause holds a true literal
    /// that was assigned no deeper than the second watched literal was. While
    /// this holds, no jump back can leave the clause with all its watched
    /// literals false and no true literal.
    pub open(crate) spec fn guarded(&self, vars: Seq<Variable>) -> bool {
        !lit_assigned(vars, self.lit1()) || exists|k: int|
            0 <= k < self.lits().len() && lit_true(vars, #[trigger] self.lits()[k]) && lit_depth(
                vars,
                self.lits()[k],
            ) <= lit_depth(vars, self.lit1())
    }

    /// The first watched literal is not fixed at depth 0, or the clause holds a
    /// literal that is true at depth 0.
    pub open(crate) spec fn anchored(&self, vars: Seq<Variable>) -> bool {
        !lit_assigned(vars, self.lit0()) || lit_depth(vars, self.lit0()) != 0 || self.fixed_true(vars)
    }

    /// The clause holds a literal that is true at depth 0.
    pub open(crate) spec fn fixed_true(&self, vars: Seq<Variable>) -> bool {
        exists|k: int|
            0 <= k < self.lits().len() && lit_true(vars, #[trigger] self.lits()[k]) && lit_depth(
                vars,
                self.lits()[k],
            ) == 0
    }

    /// Every literal of the clause is false.
    pub open(crate) spec fn falsified(&self, vars: Seq<Variable>) -> bool {
        forall|k: int| 0 <= k < self.lits().len() ==> lit_false(vars, #[trigger] self.lits()[k])
    }

    /// The literal `lit` of the clause is open and every other literal is false.
    pub open(crate) spec fn unit_on(&self, vars: Seq<Variable>, lit: Literal) -> bool {
        &&& self.lits().contains(lit)
        &&& !lit_assigned(vars, lit)
        &&& forall|k: int|
            0 <= k < self.lits().len() && self.lits()[k] != lit ==> lit_false(
                vars,
                #[trigger] self.lits()[k],
            )
    }

    /// The position `p` has the shortest list among the clause's literals, and
    /// is the first that has.
    pub open(crate) spec fn least_watched(vars: Seq<Variable>, lits: Seq<Literal>, p: int) -> bool {
        &&& 0 <= p < lits.len()
        &&& forall|k: int|
            0 <= k < lits.len() ==> lit_list(vars, lits[p]).len() <= lit_list(vars, lits[k]).len()
        &&& forall|k: int| 0 <= k < p ==> lit_list(vars, lits[p]).len() < lit_list(vars, lits[k]).len()
    }

    /// The position `q` is not `p` and has the shortest list among the others.
    pub open(crate) spec fn next_least_watched(
        vars: Seq<Variable>,
        lits: Seq<Literal>,
        p: int,
        q: int,
    ) -> bool {
        &&& 0 <= q < lits.len()
        &&& q != p
        &&& forall|k: int|
            0 <= k < lits.len() && k != p ==> lit_list(vars, lits[q]).len() <= lit_list(
                vars,
                lits[k],
            ).len()
    }

    /// Picks the two positions to watch, so that the work is spread over the
    /// variables: the literal whose list is shortest, and of the others again
    /// the one whose list is shortest. Then enters the clause in the lists.
    pub fn initialize_watched(&mut self, cid: usize, variables: &mut Vec<Variable>)
        requires
            old(self).lits().len() >= 2,
            lits_in_range(old(self).lits(), old(variables)@.len()),
            distinct_vars(old(self).lits()),
            unlinked(old(variables)@, cid),
            lists_distinct(old(variables)@),
            forall|k: int|
                0 <= k < old(self).lits().len() ==> lit_list(
                    old(variables)@,
                    #[trigger] old(self).lits()[k],
                ).len() < usize::MAX,
        ensures
            final(self).lits() == old(self).lits(),
            final(self).spec_glue() == old(self).spec_glue(),
            final(self).wf(old(variables)@.len()),
            Clause::least_watched(old(variables)@, final(self).lits(), final(self).w0()),
            Clause::next_least_watched(
                old(variables)@,
                final(self).lits(),
                final(self).w0(),
                final(self).w1(),
            ),
            same_assignment(final(variables)@, old(variables)@),
            lists_distinct(final(variables)@),
            other_links_kept(old(variables)@, final(variables)@, cid),
            if lit_assigned(old(variables)@, final(self).lit0()) && lit_depth(
                old(variables)@,
                final(self).lit0(),
            ) == 0 {
                unlinked(final(variables)@, cid)
            } else {
                final(self).linked(cid, final(variables)@)
            },
            lists_grown(old(variables)@, final(variables)@),
    {
        let mut a: usize = 0;
        let mut sa: usize = usize::MAX;
        let mut b: usize = 0;
        let mut sb: usize = usize::MAX;
        let mut i: usize = 0;
        while i < self.literals.len()
            invariant
                i <= self.literals.len(),
                *self == *old(self),
                *variables == *old(variables),
                self.lits().len() >= 2,
                lits_in_range(self.lits(), variables@.len()),
                forall|k: int|
                    0 <= k < self.lits().len() ==> lit_list(variables@, #[trigger] self.lits()[k]).len()
                        < usize::MAX,
                a < self.lits().len(),
                b < self.lits().len(),
                i == 0 ==> a == 0 && b == 0 && sa == usize::MAX && sb == usize::MAX,
                i >= 1 ==> a < i && sa == lit_list(variables@, self.lits()[a as int]).len(),
                i >= 2 ==> b < i && b != a && sb == lit_list(variables@, self.lits()[b as int]).len(),
                i == 1 ==> b == 0 && sb == usize::MAX,
                forall|k: int| 0 <= k < i ==> sa <= lit_list(variables@, self.lits()[k]).len(),
                forall|k: int| 0 <= k < a ==> sa < lit_list(variables@, self.lits()[k]).len(),
                forall|k: int|
                    0 <= k < i && k != a ==> sb <= lit_list(variables@, self.lits()[k]).len(),
                sa <= sb,
            decreases self.literals.len() - i,
        {
            let lit = self.literals[i];
            let neg = lit.negated();
            let len = variables[lit.id().to_usize()].watching(neg).len();
            assert(len == lit_list(variables@, self.lits()[i as int]).len());
            if len < sa {
                b = a;
                sb = sa;
                a = i;
                sa = len;
            } else if len < sb {
                b = i;
                sb = len;
            }
            i += 1;
        }
        self.watched[0] = a;
        self.watched[1] = b;
        self.notify_watched(cid, variables);
    }

    /// Enters the clause in the lists of its two watched literals, unless the
    /// first of them is fixed at depth 0: such a clause is taken to be
    /// satisfied for good, and stays out of every list.
    pub fn notify_watched(&self, cid: usize, variables: &mut Vec<Variable>)
        requires
            self.wf(old(variables)@.len()),
            unlinked(old(variables)@, cid),
            lists_distinct(old(variables)@),
        ensures
            same_assignment(final(variables)@, old(variables)@),
            lists_distinct(final(variables)@),
            other_links_kept(old(variables)@, final(variables)@, cid),
            if lit_assigned(old(variables)@, self.lit0()) && lit_depth(old(variables)@, self.lit0())
                == 0 {
                unlinked(final(variables)@, cid)
            } else {
                self.linked(cid, final(variables)@)
            },
            lists_grown(old(variables)@, final(variables)@),
    {
        let lit0 = self.literals[self.watched[0]];
        let v0 = lit0.id().to_usize();
        if !variables[v0].has_value() || variables[v0].get_depth().to_usize() != 0 {
            let ghost none = Set::<(int, bool)>::empty();
            let ghost vars0 = variables@;
            assert(links_are(variables@, cid, none));
            link(variables, lit0, cid, Ghost(none));
            let ghost vars1 = variables@;
            let lit1 = self.literals[self.watched[1]];
            assert(place(lit0) != place(lit1));
            link(variables, lit1, cid, Ghost(none.insert(place(lit0))));
            assert(none.insert(place(lit0)).insert(place(lit1)) =~= set![place(lit0), place(lit1)]);
            proof {
                lemma_links_chain(vars0, vars1, variables@, cid);
                assert forall|v: int, n: bool| 0 <= v < vars0.len() implies (#[trigger] variables@[v].watchlist(
                    n,
                )).len() <= vars0[v].watchlist(n).len() + 1 by {
                    if (v, n) == place(lit0) {
                        assert(variables@[v].watchlist(n) == vars1[v].watchlist(n));
                    } else if (v, n) == place(lit1) {
                        assert(vars1[v].watchlist(n) == vars0[v].watchlist(n));
                    } else {
                        assert(variables@[v].watchlist(n) == vars1[v].watchlist(n));
                        assert(vars1[v].watchlist(n) == vars0[v].watchlist(n));
                    }
                }
            }
        }
    }

    /// Whether one of the two watched literals is over the variable `id`.
    pub fn is_watched(&self, id: VariableId) -> (r: bool)
        requires
            0 <= self.w0() < self.lits().len(),
            0 <= self.w1() < self.lits().len(),
        ensures
            r == (self.lit0().spec_id() == id || self.lit1().spec_id() == id),
    {
        self.literals[self.watched[0]].id() == id || self.literals[self.watched[1]].id() == id
    }

    /// The clause `after` is `before` with one watched position moved to `u`:
    /// the first where `first` holds, else the second. The clause has left the
    /// list of the literal it watched there and entered that of its literal at
    /// `u`; no other list has changed, nor has any value.
    pub open(crate) spec fn moved(
        before: Clause,
        vb: Seq<Variable>,
        after: Clause,
        va: Seq<Variable>,
        cid: usize,
        first: bool,
        u: int,
    ) -> bool {
        let left = if first { before.lit0() } else { before.lit1() };
        &&& after.lits() == before.lits()
        &&& after.spec_glue() == before.spec_glue()
        &&& after.w0() == if first { u } else { before.w0() }
        &&& after.w1() == if first { before.w1() } else { u }
        &&& after.wf(vb.len())
        &&& same_assignment(va, vb)
        &&& lists_distinct(va)
        &&& other_links_kept(vb, va, cid)
        &&& after.linked(cid, va)
        &&& lit_list(vb, left).contains(cid)
        &&& lit_list(va, left) == without_last(lit_list(vb, left), cid)
        &&& forall|v: int, n: bool|
            0 <= v < vb.len() && (v, n) != place(left) && (v, n) != place(before.lits()[u])
                ==> (#[trigger] va[v].watchlist(n)) == vb[v].watchlist(n)
    }

    /// Watches the position `i` in place of the first watched position, or of
    /// the second.
    fn move_watch(&mut self, cid: usize, variables: &mut Vec<Variable>, first: bool, i: usize)
        requires
            old(self).wf(old(variables)@.len()),
            old(self).linked(cid, old(variables)@),
            lists_distinct(old(variables)@),
            i < old(self).lits().len(),
            i != old(self).w0(),
            i != old(self).w1(),
        ensures
            Clause::moved(
                *old(self),
                old(variables)@,
                *final(self),
                final(variables)@,
                cid,
                first,
                i as int,
            ),
    {
        let ghost vars0 = variables@;
        let lit0 = self.literals[self.watched[0]];
        let lit1 = self.literals[self.watched[1]];
        let lit = self.literals[i];
        let ghost both = set![place(lit0), place(lit1)];
        assert(place(lit0) != place(lit1));
        assert(place(lit) != place(lit0) && place(lit) != place(lit1));
        assert(holds(vars0, cid, lit0.var(), lit0.spec_negated()));
        assert(holds(vars0, cid, lit1.var(), lit1.spec_negated()));
        if first {
            unlink(variables, lit0, cid, Ghost(both));
            assert(both.remove(place(lit0)) =~= set![place(lit1)]);
            let ghost rest = set![place(lit1)];
            let ghost mid = variables@;
            link(variables, lit, cid, Ghost(rest));
            assert(rest.insert(place(lit)) =~= set![place(lit), place(lit1)]);
            self.watched[0] = i;
            proof {
                lemma_links_chain(vars0, mid, variables@, cid);
            }
        } else {
            unlink(variables, lit1, cid, Ghost(both));
            assert(both.remove(place(lit1)) =~= set![place(lit0)]);
            let ghost rest = set![place(lit0)];
            let ghost mid = variables@;
            link(variables, lit, cid, Ghost(rest));
            assert(rest.insert(place(lit)) =~= set![place(lit0), place(lit)]);
            self.watched[1] = i;
            proof {
                lemma_links_chain(vars0, mid, variables@, cid);
            }
        }
    }

    /// What a clause does when one of its watched literals has turned false.
    ///
    /// Where a watched literal is true, nothing changes. Otherwise the other
    /// literals are searched, going round from the first watched position. An
    /// open literal takes the place of a watched literal that is assigned. A
    /// true literal ends the search: see `percolate_sat`. Where the search
    /// finds neither, the clause is falsified if both watched literals are
    /// assigned, and unit on the open one if one of them is.
    ///
    /// So the answer is `Unsat` exactly where every literal is false, and
    /// `Unit` exactly where one literal is open and every other is false.
    #[verifier::rlimit(60)]
    pub fn apply(&mut self, cid: usize, variables: &mut Vec<Variable>) -> (r: Apply)
        requires
            old(self).wf(old(variables)@.len()),
            old(self).linked(cid, old(variables)@),
            lists_distinct(old(variables)@),
        ensures
            final(self).lits() == old(self).lits(),
            final(self).spec_glue() == old(self).spec_glue(),
            final(self).wf(old(variables)@.len()),
            same_assignment(final(variables)@, old(variables)@),
            lists_distinct(final(variables)@),
            other_links_kept(old(variables)@, final(variables)@, cid),
            final(self).linked(cid, final(variables)@) || (unlinked(final(variables)@, cid)
                && final(self).fixed_true(final(variables)@)),
            kept_or_cut(
                lit_list(old(variables)@, old(self).lit0()),
                lit_list(final(variables)@, old(self).lit0()),
                cid,
            ),
            kept_or_cut(
                lit_list(old(variables)@, old(self).lit1()),
                lit_list(final(variables)@, old(self).lit1()),
                cid,
            ),
            old(self).falsified(old(variables)@) ==> r is Unsat,
            forall|lit: Literal| old(self).unit_on(old(variables)@, lit) ==> r == Apply::Unit(lit),
            match r {
                Apply::Continue => true,
                Apply::Unsat => {
                    &&& final(self).falsified(final(variables)@)
                    &&& *final(self) == *old(self)
                    &&& *final(variables) == *old(variables)
                },
                Apply::Unit(lit) => {
                    &&& final(self).unit_on(final(variables)@, lit)
                    &&& (lit == final(self).lit0() || lit == final(self).lit1())
                },
            },
            old(self).guarded(old(variables)@) || deepest_assigned(
                old(variables)@,
                old(self).lit1(),
            ) ==> match r {
                Apply::Continue => final(self).guarded(final(variables)@),
                Apply::Unsat => true,
                Apply::Unit(_) => final(self).guarded(final(variables)@) || deepest_assigned(
                    final(variables)@,
                    final(self).lit1(),
                ),
            },
            old(self).anchored(old(variables)@) || all_at_zero(old(variables)@) ==> match r {
                Apply::Continue => final(self).anchored(final(variables)@),
                Apply::Unsat => true,
                Apply::Unit(_) => final(self).anchored(final(variables)@) || all_at_zero(
                    final(variables)@,
                ),
            },
    {
        let ghost vars0 = variables@;
        let ghost lits = self.lits();
        let ghost old_lit0 = self.lit0();
        let ghost old_lit1 = self.lit1();
        let len = self.literals.len();
        let mut lit0 = self.literals[self.watched[0]];
        let lit1 = self.literals[self.watched[1]];
        assert(place(lit0) != place(lit1));
        assert(holds(vars0, cid, lit0.var(), lit0.spec_negated()));
        assert(holds(vars0, cid, lit1.var(), lit1.spec_negated()));
        if let Some(val) = variables[lit0.id().to_usize()].value() {
            if lit0.negated() != val {
                assert(lit_true(vars0, self.lits()[self.w0()]));
                proof {
                    self.lemma_true_excludes(vars0, self.w0());
                }
                return Apply::Continue;
            }
        }
        if let Some(val) = variables[lit1.id().to_usize()].value() {
            if lit1.negated() != val {
                assert(lit_true(vars0, self.lits()[self.w1()]));
                proof {
                    self.lemma_true_excludes(vars0, self.w1());
                }
                return Apply::Continue;
            }
        }
        let start = self.watched[0];
        let w1 = self.watched[1];
        let mut i = start;
        let ghost mut steps: int = 0;
        let ghost mut replaced = false;
        loop
            invariant_except_break
                steps < len,
                i as int == if start + steps < len { start + steps } else { start + steps - len },
            invariant
                0 <= steps <= len,
                i < len,
                len == lits.len(),
                lits == old(self).lits(),
                self.lits() == lits,
                self.w1() == w1,
                w1 == old(self).w1(),
                start == old(self).w0(),
                start != w1,
                start < len,
                w1 < len,
                old(self).wf(vars0.len()),
                old(self).linked(cid, vars0),
                lists_distinct(vars0),
                vars0 == old(variables)@,
                variables@.len() == vars0.len(),
                lit0 == self.lit0(),
                lit1 == old_lit1,
                old_lit1 == lits[w1 as int],
                old_lit0 == lits[start as int],
                !lit_true(vars0, old_lit0),
                !lit_true(vars0, lit1),
                replaced ==> Clause::moved(*old(self), vars0, *self, variables@, cid, true, self.w0())
                    && self.w0() != start && 0 < offset(start as int, self.w0(), len as int) <= steps
                    && !lit_assigned(vars0, lit0) && lit_false(vars0, old_lit0) && lit_assigned(
                    vars0,
                    lit1,
                ),
                !replaced ==> *self == *old(self) && *variables == *old(variables),
                forall|k: int|
                    0 <= k < len && k != w1 && 0 < offset(start as int, k, len as int) <= steps
                        ==> lit_false(vars0, #[trigger] lits[k]) || k == self.w0(),
            ensures
                steps == len,
            decreases len - steps,
        {
            if i + 1 == len {
                i = 0;
            } else {
                i += 1;
            }
            proof {
                steps = steps + 1;
            }
            if i == w1 {
                if i + 1 == len {
                    i = 0;
                } else {
                    i += 1;
                }
                proof {
                    steps = steps + 1;
                }
            }
            if i == start {
                break ;
            }
            assert(offset(start as int, i as int, len as int) == steps);
            assert(i != self.w0());
            let lit = self.literals[i];
            let ghost mid_self = *self;
            let ghost mid = variables@;
            match variables[lit.id().to_usize()].value() {
                None => {
                    assert(!lit_assigned(vars0, lit)) by {
                        if replaced {
                            assert(mid[lit.var()].same_state(&vars0[lit.var()]));
                        }
                    }
                    if variables[lit0.id().to_usize()].has_value() {
                        assert(!replaced) by {
                            if replaced {
                                assert(mid[lit0.var()].same_state(&vars0[lit0.var()]));
                            }
                        }
                        self.move_watch(cid, variables, true, i);
                        assert(lit_false(vars0, old_lit0));
                        if !variables[lit1.id().to_usize()].has_value() {
                            proof {
                                assert(variables@[lit1.var()].same_state(&vars0[lit1.var()]));
                                assert(self.lit1() == lit1);
                                assert(self.lit0() == lit);
                                assert(variables@[lit.var()].same_state(&vars0[lit.var()]));
                                old(self).lemma_open_excludes(vars0, i as int, w1 as int);
                            }
                            return Apply::Continue;
                        }
                        lit0 = lit;
                        proof {
                            assert(variables@[lit1.var()].same_state(&vars0[lit1.var()]));
                            replaced = true;
                        }
                    } else {
                        self.move_watch(cid, variables, false, i);
                        proof {
                            assert(self.lit1() == lit);
                            assert(variables@[lit.var()].same_state(&mid[lit.var()]));
                            assert(variables@[lit0.var()].same_state(&mid[lit0.var()]));
                            assert(self.lit0() == lit0);
                            if replaced {
                                lemma_links_chain(vars0, mid, variables@, cid);
                                assert(place(old_lit0) != place(lit1));
                                assert(place(old_lit0) != place(lit));
                                assert(place(lit1) != place(mid_self.lit0()));
                            }
                            assert(!lit_assigned(vars0, lit0)) by {
                                assert(mid[lit0.var()].same_state(&vars0[lit0.var()]));
                            }
                            assert(lits[mid_self.w0()] == lit0);
                            old(self).lemma_open_excludes(vars0, i as int, mid_self.w0());
                        }
                        return Apply::Continue;
                    }
                },
                Some(val) => {
                    if lit.negated() != val {
                        assert(lit_true(mid, lit));
                        self.percolate_sat(cid, variables, start, i, lit);
                        proof {
                            lemma_links_chain(vars0, mid, variables@, cid);
                            assert(variables@[lit.var()].same_state(&vars0[lit.var()]));
                            assert(lit_true(vars0, lits[i as int]));
                            old(self).lemma_true_excludes(vars0, i as int);
                            assert(lit_true(variables@, self.lits()[i as int]));
                            lemma_guarded_same(*self, *old(self), variables@, vars0);
                            if !lit_assigned(vars0, old_lit1) {
                            } else if !old(self).guarded(vars0) && deepest_assigned(vars0, old_lit1) {
                                assert(old(self).lits()[i as int] == lit);
                                assert(lit_depth(vars0, lit) <= lit_depth(vars0, old_lit1));
                                assert(old(self).guarded(vars0));
                            }
                            if self.linked(cid, variables@) {
                                assert(variables@[self.lit0().var()].same_state(
                                    &vars0[self.lit0().var()],
                                ));
                            }
                            if replaced {
                                assert(place(old_lit0) != place(lit1));
                                assert(place(old_lit0) != place(mid_self.lit0()));
                                assert(place(old_lit0) != place(self.lit0()));
                                assert(place(lit1) != place(mid_self.lit0()));
                            }
                        }
                        return Apply::Continue;
                    } else {
                        assert(lit_false(vars0, lits[i as int])) by {
                            assert(mid[lit.var()].same_state(&vars0[lit.var()]));
                        }
                    }
                },
            }
        }
        proof {
            assert forall|k: int| 0 <= k < len && k != self.w0() && k != w1 implies lit_false(
                vars0,
                #[trigger] lits[k],
            ) by {
                if k == start {
                } else {
                    assert(0 < offset(start as int, k, len as int) <= steps);
                }
            }
            assert forall|k: int|
                0 <= k < len && lits[k] != lit0 && lits[k] != lit1 implies lit_false(
                variables@,
                #[trigger] lits[k],
            ) by {
                assert(lit_false(vars0, lits[k]));
                assert(variables@[lits[k].var()].same_state(&vars0[lits[k].var()]));
            }
            assert(variables@[lit0.var()].same_state(&vars0[lit0.var()]));
            assert(variables@[lit1.var()].same_state(&vars0[lit1.var()]));
            if replaced {
                lemma_guarded_same(*self, *old(self), variables@, vars0);
                lemma_deepest_same(variables@, vars0, old_lit1);
                assert(place(old_lit0) != place(lit1));
                assert(place(lit0) != place(lit1));
            }
        }
        if variables[lit0.id().to_usize()].has_value() {
            if variables[lit1.id().to_usize()].has_value() {
                assert forall|k: int| 0 <= k < len implies lit_false(
                    variables@,
                    #[trigger] self.lits()[k],
                ) by {
                    if lits[k] == lit0 || lits[k] == lit1 {
                    }
                }
                proof {
                    old(self).lemma_false_excludes(vars0);
                }
                Apply::Unsat
            } else {
                assert(self.lits()[self.w1()] == lit1);
                proof {
                    assert(!lit_assigned(vars0, lit1));
                    old(self).lemma_open_decides(vars0, w1 as int);
                }
                Apply::Unit(lit1)
            }
        } else if variables[lit1.id().to_usize()].has_value() {
            assert(self.lits()[self.w0()] == lit0);
            proof {
                assert(!lit_assigned(vars0, lit0));
                old(self).lemma_open_decides(vars0, self.w0());
            }
            Apply::Unit(lit0)
        } else {
            proof {
                assert(!lit_assigned(vars0, lit0));
                assert(!lit_assigned(vars0, lit1));
                old(self).lemma_open_excludes(vars0, self.w0(), w1 as int);
            }
            Apply::Continue
        }
    }

    /// A clause that holds a true literal is neither falsified nor unit.
    pub(crate) proof fn lemma_true_excludes(&self, vars: Seq<Variable>, k: int)
        requires
            0 <= k < self.lits().len(),
            lit_true(vars, self.lits()[k]),
        ensures
            !self.falsified(vars),
            forall|lit: Literal| !self.unit_on(vars, lit),
    {
        assert forall|lit: Literal| !self.unit_on(vars, lit) by {
            if self.unit_on(vars, lit) {
                if self.lits()[k] != lit {
                    assert(lit_false(vars, self.lits()[k]));
                }
            }
        }
    }

    /// A clause that holds two open literals is neither falsified nor unit.
    pub(crate) proof fn lemma_open_excludes(&self, vars: Seq<Variable>, a: int, b: int)
        requires
            distinct_vars(self.lits()),
            0 <= a < self.lits().len(),
            0 <= b < self.lits().len(),
            a != b,
            !lit_assigned(vars, self.lits()[a]),
            !lit_assigned(vars, self.lits()[b]),
        ensures
            !self.falsified(vars),
            forall|lit: Literal| !self.unit_on(vars, lit),
    {
        assert(self.lits()[a].var() != self.lits()[b].var()) by {
            if a < b {
            } else {
                assert(self.lits()[b].var() != self.lits()[a].var());
            }
        }
        assert(!lit_false(vars, self.lits()[a]));
        assert forall|lit: Literal| !self.unit_on(vars, lit) by {
            if self.unit_on(vars, lit) {
                if self.lits()[a] != lit {
                    assert(lit_false(vars, self.lits()[a]));
                } else {
                    assert(lit_false(vars, self.lits()[b]));
                }
            }
        }
    }

    /// A clause whose literals are all false is unit on none.
    pub(crate) proof fn lemma_false_excludes(&self, vars: Seq<Variable>)
        requires
            self.falsified(vars),
        ensures
            forall|lit: Literal| !self.unit_on(vars, lit),
    {
        assert forall|lit: Literal| !self.unit_on(vars, lit) by {
            if self.unit_on(vars, lit) {
                let k = choose|k: int| 0 <= k < self.lits().len() && self.lits()[k] == lit;
                assert(lit_false(vars, self.lits()[k]));
            }
        }
    }

    /// A clause with an open literal is not falsified, and can be unit on
    /// that literal only.
    pub(crate) proof fn lemma_open_decides(&self, vars: Seq<Variable>, k: int)
        requires
            0 <= k < self.lits().len(),
            !lit_assigned(vars, self.lits()[k]),
        ensures
            !self.falsified(vars),
            forall|lit: Literal| self.unit_on(vars, lit) ==> lit == self.lits()[k],
    {
        assert(!lit_false(vars, self.lits()[k]));
        assert forall|lit: Literal| self.unit_on(vars, lit) implies lit == self.lits()[k] by {
            if self.lits()[k] != lit {
                assert(lit_false(vars, self.lits()[k]));
            }
        }
    }

    /// The search of `apply` has found the true literal `lit` at `pos`. Among
    /// it and the literals behind it, up to `start`, the one of the least depth
    /// is picked; a literal at depth 0 counts only if it is true. Where the
    /// pick lies at depth 0 the clause is satisfied for good and leaves both
    /// lists. Otherwise the pick becomes the first watched literal.
    fn percolate_sat(
        &mut self,
        cid: usize,
        variables: &mut Vec<Variable>,
        start: usize,
        pos: usize,
        lit: Literal,
    )
        requires
            old(self).wf(old(variables)@.len()),
            old(self).linked(cid, old(variables)@),
            lists_distinct(old(variables)@),
            start < old(self).lits().len(),
            pos < old(self).lits().len(),
            start != old(self).w1(),
            pos != start,
            pos != old(self).w1(),
            offset(start as int, old(self).w0(), old(self).lits().len() as int) < offset(
                start as int,
                pos as int,
                old(self).lits().len() as int,
            ),
            lit == old(self).lits()[pos as int],
            lit_true(old(variables)@, lit),
        ensures
            final(self).lits() == old(self).lits(),
            final(self).spec_glue() == old(self).spec_glue(),
            final(self).w1() == old(self).w1(),
            final(self).wf(old(variables)@.len()),
            same_assignment(final(variables)@, old(variables)@),
            lists_distinct(final(variables)@),
            other_links_kept(old(variables)@, final(variables)@, cid),
            (unlinked(final(variables)@, cid) && final(self).fixed_true(final(variables)@) && final(self).w0() == old(self).w0()) || (final(self).linked(cid, final(variables)@) && lit_assigned(
                final(variables)@,
                final(self).lit0(),
            ) && lit_depth(final(variables)@, final(self).lit0()) != 0 && final(self).w0() != start),
            kept_or_cut(
                lit_list(old(variables)@, old(self).lit0()),
                lit_list(final(variables)@, old(self).lit0()),
                cid,
            ),
            kept_or_cut(
                lit_list(old(variables)@, old(self).lit1()),
                lit_list(final(variables)@, old(self).lit1()),
                cid,
            ),
            forall|v: int, n: bool|
                0 <= v < old(variables)@.len() && (v, n) != place(old(self).lit0()) && (v, n) != place(
                    old(self).lit1(),
                ) && (v, n) != place(final(self).lit0()) ==> (#[trigger] final(variables)@[v].watchlist(n)) == old(variables)@[v].watchlist(n),
    {
        let ghost vars0 = variables@;
        let ghost lits = self.lits();
        let ghost pos0 = pos as int;
        let len = self.literals.len();
        let w1 = self.watched[1];
        let mut pos = pos;
        let mut mind: usize = variables[lit.id().to_usize()].get_depth().to_usize();
        let mut i = pos;
        let ghost mut steps: int = offset(start as int, pos as int, len as int);
        loop
            invariant_except_break
                steps < len,
                i as int == if start + steps < len { start + steps } else { start + steps - len },
            invariant
                0 < steps <= len,
                i < len,
                len == lits.len(),
                *self == *old(self),
                *variables == *old(variables),
                vars0 == variables@,
                lits == self.lits(),
                w1 == self.w1(),
                self.wf(vars0.len()),
                start < len,
                start != w1,
                pos < len,
                pos != start,
                pos != w1,
                offset(start as int, pos0, len as int) <= offset(start as int, pos as int, len as int),
                offset(start as int, pos as int, len as int) <= steps,
                lit_assigned(vars0, lits[pos as int]),
                mind == lit_depth(vars0, lits[pos as int]),
                mind == 0 ==> lit_true(vars0, lits[pos as int]),
            ensures
                steps == len,
            decreases len - steps,
        {
            if i + 1 == len {
                i = 0;
            } else {
                i += 1;
            }
            proof {
                steps = steps + 1;
            }
            if i == w1 {
                if i + 1 == len {
                    i = 0;
                } else {
                    i += 1;
                }
                proof {
                    steps = steps + 1;
                }
            }
            if i == start {
                break ;
            }
            assert(offset(start as int, i as int, len as int) == steps);
            let other = self.literals[i];
            let d: usize = variables[other.id().to_usize()].get_depth().to_usize();
            if d < mind && (d != 0 || variables[other.id().to_usize()].get_value()
                != other.negated()) {
                mind = d;
                pos = i;
            }
        }
        let ghost both = set![place(self.lit0()), place(self.lit1())];
        let first = self.literals[self.watched[0]];
        let second = self.literals[self.watched[1]];
        let picked = self.literals[pos];
        assert(pos as int != self.w0());
        assert(holds(vars0, cid, first.var(), first.spec_negated()));
        assert(holds(vars0, cid, second.var(), second.spec_negated()));
        assert(place(first) != place(second));
        assert(place(picked) != place(first) && place(picked) != place(second));
        if variables[picked.id().to_usize()].get_depth().to_usize() == 0 {
            unlink(variables, first, cid, Ghost(both));
            assert(both.remove(place(first)) =~= set![place(second)]);
            let ghost at3 = set![place(second)];
            unlink(variables, second, cid, Ghost(at3));
            assert(set![place(second)].remove(place(second)) =~= Set::<(int, bool)>::empty());
            assert(lit_true(variables@, self.lits()[pos as int]));
        } else if pos != self.watched[0] {
            if pos != self.watched[1] {
                unlink(variables, first, cid, Ghost(both));
                assert(both.remove(place(first)) =~= set![place(second)]);
                let ghost at4 = set![place(second)];
                link(variables, picked, cid, Ghost(at4));
                assert(set![place(second)].insert(place(picked)) =~= set![
                    place(picked),
                    place(second),
                ]);
                self.watched[0] = pos;
            } else {
                let first_position = self.watched[0];
                self.watched[0] = self.watched[1];
                self.watched[1] = first_position;
            }
        }
    }

    /// The literals, to go through.
    pub fn iter(&self) -> (literals: core::slice::Iter<'_, Literal>)
        ensures
            exists|slice: &[Literal]|
                slice@ == self.lits() && literals == #[trigger] vstd::std_specs::slice::spec_slice_iter(
                    slice,
                ),
    {
        let slice = self.literals.as_slice();
        slice.iter()
    }

    /// The literals, as a slice.
    pub fn literals(&self) -> (literals: &[Literal])
        ensures
            literals@ == self.lits(),
    {
        self.literals.as_slice()
    }

    pub fn get_glue(&self) -> (glue: VariableId)
        ensures
            glue == self.spec_glue(),
    {
        self.glue
    }

    #[verifier::when_used_as_spec(spec_len)]
    pub fn len(&self) -> (len: usize)
        ensures
            len == self.lits().len(),
    {
        self.literals.len()
    }

    pub fn is_empty(&self) -> (r: bool)
        ensures
            r == (self.lits().len() == 0),
    {
        self.literals.len() == 0
    }
}

/// A prefix of a sequence holds no more different values than the whole.
pub proof fn lemma_depths_grow(depths: Seq<usize>, n: int)
    requires
        0 <= n <= depths.len(),
    ensures
        depths.take(n).to_set().len() <= depths.to_set().len(),
{
    vstd::seq_lib::seq_to_set_is_finite(depths);
    vstd::seq_lib::seq_to_set_is_finite(depths.take(n));
    assert forall|d: usize| depths.take(n).to_set().contains(d) implies depths.to_set().contains(
        d,
    ) by {
        let k = choose|k: int| 0 <= k < n && depths.take(n)[k] == d;
        assert(depths[k] == d);
    }
    vstd::set_lib::lemma_len_subset(depths.take(n).to_set(), depths.to_set());
}

/// Whether a clause is guarded depends on its literals, on its second watched
/// literal and on the values alone.
pub proof fn lemma_guarded_same(a: Clause, b: Clause, va: Seq<Variable>, vb: Seq<Variable>)
    requires
        a.lits() == b.lits(),
        a.lit1() == b.lit1(),
        same_assignment(va, vb),
        lits_in_range(a.lits(), va.len()),
        a.lit1().var() < va.len(),
    ensures
        a.guarded(va) == b.guarded(vb),
{
    assert(va[a.lit1().var()].same_state(&vb[a.lit1().var()]));
    if a.guarded(va) && lit_assigned(va, a.lit1()) {
        let k = choose|k: int|
            0 <= k < a.lits().len() && lit_true(va, #[trigger] a.lits()[k]) && lit_depth(
                va,
                a.lits()[k],
            ) <= lit_depth(va, a.lit1());
        assert(va[a.lits()[k].var()].same_state(&vb[a.lits()[k].var()]));
        assert(lit_true(vb, b.lits()[k]));
    }
    if b.guarded(vb) && lit_assigned(vb, b.lit1()) {
        let k = choose|k: int|
            0 <= k < b.lits().len() && lit_true(vb, #[trigger] b.lits()[k]) && lit_depth(
                vb,
                b.lits()[k],
            ) <= lit_depth(vb, b.lit1());
        assert(va[a.lits()[k].var()].same_state(&vb[a.lits()[k].var()]));
        assert(lit_true(va, a.lits()[k]));
    }
}

/// Whether a clause holds a literal that is true at depth 0 depends on its
/// literals and on the values alone.
pub proof fn lemma_fixed_true_same(a: Clause, b: Clause, va: Seq<Variable>, vb: Seq<Variable>)
    requires
        a.lits() == b.lits(),
        same_assignment(va, vb),
        lits_in_range(a.lits(), va.len()),
    ensures
        a.fixed_true(va) == b.fixed_true(vb),
{
    if a.fixed_true(va) {
        let k = choose|k: int|
            0 <= k < a.lits().len() && lit_true(va, #[trigger] a.lits()[k]) && lit_depth(
                va,
                a.lits()[k],
            ) == 0;
        assert(va[a.lits()[k].var()].same_state(&vb[a.lits()[k].var()]));
        assert(lit_true(vb, b.lits()[k]));
    }
    if b.fixed_true(vb) {
        let k = choose|k: int|
            0 <= k < b.lits().len() && lit_true(vb, #[trigger] b.lits()[k]) && lit_depth(
                vb,
                b.lits()[k],
            ) == 0;
        assert(va[a.lits()[k].var()].same_state(&vb[a.lits()[k].var()]));
        assert(lit_true(va, a.lits()[k]));
    }
}

/// Whether a clause is anchored depends on its literals, on its first watched
/// literal and on the values alone.
pub proof fn lemma_anchored_same(a: Clause, b: Clause, va: Seq<Variable>, vb: Seq<Variable>)
    requires
        a.lits() == b.lits(),
        a.lit0() == b.lit0(),
        same_assignment(va, vb),
        lits_in_range(a.lits(), va.len()),
        a.lit0().var() < va.len(),
    ensures
        a.anchored(va) == b.anchored(vb),
{
    assert(va[a.lit0().var()].same_state(&vb[a.lit0().var()]));
    lemma_fixed_true_same(a, b, va, vb);
}

/// If no variable is assigned deeper than a literal, this stays so while the
/// values stay.
pub proof fn lemma_deepest_same(va: Seq<Variable>, vb: Seq<Variable>, lit: Literal)
    requires
        same_assignment(va, vb),
        lit.var() < va.len(),
    ensures
        deepest_assigned(va, lit) == deepest_assigned(vb, lit),
{
    assert(va[lit.var()].same_state(&vb[lit.var()]));
    if deepest_assigned(va, lit) {
        assert forall|v: int| 0 <= v < vb.len() && (#[trigger] vb[v]).assigned() implies vb[v].depth.0
            <= lit_depth(vb, lit) by {
            assert(va[v].same_state(&vb[v]));
        }
    }
    if deepest_assigned(vb, lit) {
        assert forall|v: int| 0 <= v < va.len() && (#[trigger] va[v]).assigned() implies va[v].depth.0
            <= lit_depth(va, lit) by {
            assert(va[v].same_state(&vb[v]));
        }
    }
}

/// Two steps that each leave the values and the other clauses' links alone do
/// so together.
pub proof fn lemma_links_chain(a: Seq<Variable>, b: Seq<Variable>, c: Seq<Variable>, cid: usize)
    requires
        same_assignment(b, a),
        same_assignment(c, b),
        other_links_kept(a, b, cid),
        other_links_kept(b, c, cid),
    ensures
        same_assignment(c, a),
        other_links_kept(a, c, cid),
{
    assert forall|v: int| 0 <= v < c.len() implies (#[trigger] c[v]).same_state(&a[v]) by {
        assert(c[v].same_state(&b[v]));
        assert(b[v].same_state(&a[v]));
    }
    assert forall|x: usize, v: int, n: bool|
        #![trigger holds(a, x, v, n)]
        #![trigger holds(c, x, v, n)]
        x != cid && 0 <= v < a.len() implies holds(a, x, v, n) == holds(c, x, v, n) by {
        assert(holds(a, x, v, n) == holds(b, x, v, n));
        assert(holds(b, x, v, n) == holds(c, x, v, n));
    }
}

/// A rearrangement of literals over different variables is over different
/// variables.
pub proof fn lemma_rearranged_distinct(a: Seq<Literal>, b: Seq<Literal>)
    requires
        a.to_multiset() == b.to_multiset(),
        distinct_vars(a),
    ensures
        distinct_vars(b),
{
    assert(a.no_duplicates()) by {
        assert forall|i: int, j: int| 0 <= i < a.len() && 0 <= j < a.len() && i != j implies a[i]
            != a[j] by {
            if i < j {
                assert(a[i].var() != a[j].var());
            } else {
                assert(a[j].var() != a[i].var());
            }
        }
    }
    a.lemma_multiset_has_no_duplicates();
    b.lemma_multiset_has_no_duplicates_conv();
    lemma_same_literals(a, b);
    assert forall|i: int, j: int| 0 <= i < j < b.len() implies b[i].var() != b[j].var() by {
        assert(a.contains(b[i]));
        assert(a.contains(b[j]));
        let x = choose|x: int| 0 <= x < a.len() && a[x] == b[i];
        let y = choose|y: int| 0 <= y < a.len() && a[y] == b[j];
        assert(b[i] != b[j]);
        if x < y {
            assert(a[x].var() != a[y].var());
        } else {
            assert(a[y].var() != a[x].var());
        }
    }
}

} // verus!
