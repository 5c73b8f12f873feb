use vstd::prelude::*;

use super::board::{count_true, lemma_cell_of, lemma_offset_bound, Board};
use super::counting::lemma_names_bound;
use crate::cnf::logic::{clause_holds, formula_holds, lit_holds, satisfiable};
use crate::cnf::print::{clauses_text, header_text};
use crate::cnf::problembuilder::{indexed, lemma_indexed, lemma_numbered};
use crate::cnf::valuation::lits_in_range;
use crate::cnf::{ClauseBuilder, Literal, Problem, ProblemBuilder};
use crate::SolverResult;

verus! {

/// What a clause of a board's problem demands.
pub enum Rule {
    /// The cell has one of the values that are left in it.
    Cell { cell: int },
    /// The column has the value in one of its cells.
    Column { col: int, val: int },
    /// The row has the value in one of its cells.
    Row { row: int, val: int },
    /// The block has the value in one of its cells.
    Block { x: int, y: int, val: int },
    /// The cell does not have both values.
    Pair { cell: int, high: int, low: int },
}

/// The place `k` steps behind `start`.
pub open spec fn stride(start: int, step: int, k: int) -> int {
    start + k * step
}

/// What a literal says: the name of its variable, and whether it denies it.
pub open spec fn says(names: Seq<usize>, lit: Literal) -> (usize, bool) {
    (names[lit.var()], lit.spec_negated())
}

/// The clause says what is `allowed`, all of it and nothing else.
pub open spec fn states(names: Seq<usize>, clause: Seq<Literal>, allowed: Set<(usize, bool)>) -> bool {
    &&& forall|i: int| 0 <= i < clause.len() ==> allowed.contains(#[trigger] says(names, clause[i]))
    &&& forall|p: (usize, bool)| #[trigger]
        allowed.contains(p) ==> exists|i: int| 0 <= i < clause.len() && #[trigger] says(names, clause[i]) == p
}

/// Where a rule stands in the order in which the rules are put.
pub open spec fn key(rule: Rule) -> (int, int, int, int) {
    match rule {
        Rule::Cell { cell } => (0, cell, 0, 0),
        Rule::Column { col, val } => (1, col, val, 0),
        Rule::Row { row, val } => (2, row, val, 0),
        Rule::Block { x, y, val } => (3, x, y, val),
        Rule::Pair { cell, high, low } => (4, cell, high, low),
    }
}

/// The order of the keys: by the first number, then by the second, and so on.
pub open spec fn earlier(a: (int, int, int, int), b: (int, int, int, int)) -> bool {
    a.0 < b.0 || (a.0 == b.0 && (a.1 < b.1 || (a.1 == b.1 && (a.2 < b.2 || (a.2 == b.2 && a.3 < b.3)))))
}

/// The cell of the possibility at the place `name`, on a board of `count`
/// values.
#[verifier::opaque]
pub open spec fn cell_of(name: usize, count: int) -> int {
    name as int / count
}

/// The value, counted from 0, of the possibility at the place `name`.
#[verifier::opaque]
pub open spec fn value_of(name: usize, count: int) -> int {
    name as int % count
}

/// A place on the board has a cell and a value, and is told by them.
pub proof fn lemma_parts(name: usize, count: int)
    requires
        0 <= name < count * count * count,
        count >= 1,
    ensures
        0 <= cell_of(name, count) < count * count,
        0 <= value_of(name, count) < count,
        name == cell_of(name, count) * count + value_of(name, count),
        cell_of(name, count) == name as int / count,
        value_of(name, count) == name as int % count,
{
    reveal(cell_of);
    reveal(value_of);
    lemma_cell_of(name as int, count);
    vstd::arithmetic::div_mod::lemma_fundamental_div_mod(name as int, count);
    assert(count * (name as int / count) == (name as int / count) * count) by (nonlinear_arith);
}

/// The place of the value `val` in the cell `cell` tells both.
pub proof fn lemma_parts_of(cell: int, val: int, count: int)
    requires
        0 <= cell < count * count,
        0 <= val < count,
        count <= 35,
    ensures
        0 <= cell * count + val < count * count * count,
        count * count * count <= 42875,
        cell_of((cell * count + val) as usize, count) == cell,
        value_of((cell * count + val) as usize, count) == val,
{
    reveal(cell_of);
    reveal(value_of);
    assert(0 <= cell * count && cell * count + count <= count * count * count) by (nonlinear_arith)
        requires
            0 <= cell,
            cell + 1 <= count * count,
            count >= 1,
    ;
    assert(count * count * count <= 42875) by (nonlinear_arith)
        requires
            0 <= count <= 35,
    ;
    vstd::arithmetic::div_mod::lemma_fundamental_div_mod_converse(cell * count + val, count, cell, val);
}

/// Whether the values agree with what is said of a possibility: that the
/// cell at its place has its value, or that it has not.
pub open spec fn fits(values: Seq<usize>, count: int, p: (usize, bool)) -> bool {
    (values[cell_of(p.0, count)] == value_of(p.0, count) + 1) != p.1
}

/// The values of the variables that say what stands in the cells: a
/// variable is true where the cell of its name has the value of its name.
pub open spec fn reading(names: Seq<usize>, values: Seq<usize>, count: int) -> Seq<bool> {
    Seq::new(names.len(), |v: int| values[cell_of(names[v], count)] == value_of(names[v], count) + 1)
}

/// What every true variable says of its cell is so among the values.
pub open spec fn read_from(names: Seq<usize>, model: Seq<bool>, values: Seq<usize>, count: int) -> bool {
    forall|u: int|
        0 <= u < names.len() && #[trigger] model[u] ==> values[cell_of(names[u], count)] == value_of(
            names[u],
            count,
        ) + 1
}

/// The cell of each of the first `upto` variables that are true has the
/// value of one of them.
pub open spec fn read_upto(names: Seq<usize>, model: Seq<bool>, values: Seq<usize>, count: int, upto: int) -> bool {
    forall|u: int|
        0 <= u < upto && #[trigger] model[u] ==> exists|w: int|
            0 <= w < upto && #[trigger] model[w] && cell_of(names[w], count) == cell_of(names[u], count)
                && values[cell_of(names[u], count)] == value_of(names[w], count) + 1
}

/// The values of the cells that a model tells: the value of each cell is the
/// value of a true variable of the cell.
pub open spec fn told(names: Seq<usize>, model: Seq<bool>, count: int) -> Seq<usize> {
    Seq::new(
        (count * count) as nat,
        |cell: int|
            {
                let u = choose|u: int|
                    0 <= u < names.len() && #[trigger] model[u] && cell_of(names[u], count) == cell;
                (value_of(names[u], count) + 1) as usize
            },
    )
}

/// The one builder has the names and the clauses of the other, and perhaps
/// more behind them.
pub open spec fn extends(before: ProblemBuilder<usize>, after: ProblemBuilder<usize>) -> bool {
    &&& before.names().len() <= after.names().len()
    &&& forall|i: int| 0 <= i < before.names().len() ==> after.names()[i] == #[trigger] before.names()[i]
    &&& before.clauses().len() <= after.clauses().len()
    &&& forall|c: int| 0 <= c < before.clauses().len() ==> after.clauses()[c] == #[trigger] before.clauses()[c]
}

/// More names behind the names of a clause leave what it says.
pub proof fn lemma_states_kept(
    before: Seq<usize>,
    after: Seq<usize>,
    clause: Seq<Literal>,
    allowed: Set<(usize, bool)>,
)
    requires
        before.len() <= after.len(),
        forall|i: int| 0 <= i < before.len() ==> after[i] == #[trigger] before[i],
        lits_in_range(clause, before.len()),
        states(before, clause, allowed),
    ensures
        states(after, clause, allowed),
{
    assert forall|i: int| 0 <= i < clause.len() implies allowed.contains(#[trigger] says(after, clause[i])) by {
        assert(clause[i].var() < before.len());
        assert(says(after, clause[i]) == says(before, clause[i]));
    }
    assert forall|p: (usize, bool)| #[trigger] allowed.contains(p) implies exists|i: int|
        0 <= i < clause.len() && #[trigger] says(after, clause[i]) == p by {
        let i = choose|i: int| 0 <= i < clause.len() && #[trigger] says(before, clause[i]) == p;
        assert(clause[i].var() < before.len());
        assert(says(after, clause[i]) == p);
    }
}

/// A clause with one more literal says one more thing.
pub proof fn lemma_states_more(
    before: Seq<usize>,
    after: Seq<usize>,
    clause: Seq<Literal>,
    lit: Literal,
    allowed: Set<(usize, bool)>,
    more: Set<(usize, bool)>,
)
    requires
        before.len() <= after.len(),
        forall|i: int| 0 <= i < before.len() ==> after[i] == #[trigger] before[i],
        lits_in_range(clause, before.len()),
        states(before, clause, allowed),
        more =~= allowed.insert(says(after, lit)),
    ensures
        states(after, clause.push(lit), more),
{
    lemma_states_kept(before, after, clause, allowed);
    let longer = clause.push(lit);
    assert forall|i: int| 0 <= i < longer.len() implies more.contains(#[trigger] says(after, longer[i])) by {
        if i < clause.len() {
            assert(longer[i] == clause[i]);
            assert(allowed.contains(says(after, clause[i])));
        }
    }
    assert forall|p: (usize, bool)| #[trigger] more.contains(p) implies exists|i: int|
        0 <= i < longer.len() && #[trigger] says(after, longer[i]) == p by {
        if allowed.contains(p) {
            let i = choose|i: int| 0 <= i < clause.len() && #[trigger] says(after, clause[i]) == p;
            assert(longer[i] == clause[i]);
            assert(says(after, longer[i]) == p);
        } else {
            assert(says(after, longer[clause.len() as int]) == p);
        }
    }
}

/// The place of a possibility tells its row, its column and its value.
pub proof fn lemma_place(row: int, col: int, val: int, count: int)
    requires
        0 <= row < count,
        0 <= col < count,
        0 <= val < count,
        count <= 35,
    ensures
        0 <= row * count * count + col * count + val < count * count * count,
        (row * count * count + col * count + val) / count == row * count + col,
        (row * count * count + col * count + val) % count == val,
        0 <= row * count + col < count * count,
        (row * count + col) * count + val == row * count * count + col * count + val,
        count * count * count <= 42875,
{
    lemma_offset_bound(row, col, val, count);
    vstd::arithmetic::div_mod::lemma_fundamental_div_mod_converse(
        row * count * count + col * count + val,
        count,
        row * count + col,
        val,
    );
}

impl Board {
    /// The place of the possibility that the cell has the value `val`.
    pub open(crate) spec fn at(&self, row: int, col: int, val: int) -> int {
        row * self.count * self.count + col * self.count + val
    }

    /// The place of the possibility that the cell `b` rows and `a` columns
    /// into the block has the value `val`.
    pub open(crate) spec fn block_at(&self, x: int, y: int, val: int, a: int, b: int) -> int {
        self.at(x * self.cols + b, y * self.rows + a, val)
    }

    /// What is left of the first `upto` possibilities of a line of
    /// possibilities, each said to hold.
    pub open(crate) spec fn line_upto(&self, start: int, step: int, upto: int) -> Set<(usize, bool)> {
        Set::new(
            |p: (usize, bool)|
                !p.1 && exists|k: int|
                    0 <= k < upto && p.0 == #[trigger] stride(start, step, k) && self.data@[p.0 as int],
        )
    }

    /// What is left of the possibilities of the value in a block, up to the
    /// cell `b` rows and `a` columns into it, each said to hold.
    pub open(crate) spec fn block_upto(&self, x: int, y: int, val: int, a: int, b: int) -> Set<(usize, bool)> {
        Set::new(
            |p: (usize, bool)|
                !p.1 && exists|i: int, j: int|
                    0 <= i < self.rows && 0 <= j < self.cols && (i < a || (i == a && j < b)) && p.0
                        == #[trigger] self.block_at(x, y, val, i, j) && self.data@[p.0 as int],
        )
    }

    /// What the clause of a rule says.
    pub open(crate) spec fn allowed(&self, rule: Rule) -> Set<(usize, bool)> {
        match rule {
            Rule::Cell { cell } => self.line_upto(cell * self.count, 1, self.count as int),
            Rule::Column { col, val } => self.line_upto(
                col * self.count + val,
                self.count * self.count,
                self.count as int,
            ),
            Rule::Row { row, val } => self.line_upto(
                row * self.count * self.count + val,
                self.count as int,
                self.count as int,
            ),
            Rule::Block { x, y, val } => self.block_upto(x, y, val, self.rows as int, 0),
            Rule::Pair { cell, high, low } => deny(cell * self.count, high, low),
        }
    }

    /// The rules of the board: one for each cell; one for each column, row
    /// and block and each value; and one for each cell and each two values
    /// that are left in it.
    pub open(crate) spec fn due(&self, rule: Rule) -> bool {
        match rule {
            Rule::Cell { cell } => 0 <= cell < self.count * self.count,
            Rule::Column { col, val } => 0 <= col < self.count && 0 <= val < self.count,
            Rule::Row { row, val } => 0 <= row < self.count && 0 <= val < self.count,
            Rule::Block { x, y, val } => 0 <= x < self.rows && 0 <= y < self.cols && 0 <= val < self.count,
            Rule::Pair { cell, high, low } => 0 <= cell < self.count * self.count && 0 <= low < high
                < self.count && self.data@[cell * self.count + high] && self.data@[cell * self.count + low],
        }
    }

    /// The value of the cell among `values`, which hold the cells row after
    /// row.
    pub open(crate) spec fn entry(&self, values: Seq<usize>, row: int, col: int) -> int {
        values[row * self.count + col] as int
    }

    /// Some cell of the row has the value `val`, counted from 0.
    pub open(crate) spec fn row_has(&self, values: Seq<usize>, row: int, val: int) -> bool {
        exists|col: int| 0 <= col < self.count && #[trigger] self.entry(values, row, col) == val + 1
    }

    /// Some cell of the column has the value `val`, counted from 0.
    pub open(crate) spec fn column_has(&self, values: Seq<usize>, col: int, val: int) -> bool {
        exists|row: int| 0 <= row < self.count && #[trigger] self.entry(values, row, col) == val + 1
    }

    /// Some cell of the block has the value `val`, counted from 0.
    pub open(crate) spec fn block_has(&self, values: Seq<usize>, x: int, y: int, val: int) -> bool {
        exists|a: int, b: int|
            0 <= a < self.rows && 0 <= b < self.cols && #[trigger] self.entry(
                values,
                x * self.cols + b,
                y * self.rows + a,
            ) == val + 1
    }

    /// The values complete the board: each cell has a value, counted from 1,
    /// that is left in it, and each row, each column and each block has each
    /// value.
    pub open(crate) spec fn completes(&self, values: Seq<usize>) -> bool {
        &&& values.len() == self.count * self.count
        &&& forall|row: int, col: int|
            0 <= row < self.count && 0 <= col < self.count ==> 1 <= #[trigger] self.entry(values, row, col)
                <= self.count && self.possible(row, col, self.entry(values, row, col) - 1)
        &&& forall|row: int, val: int|
            0 <= row < self.count && 0 <= val < self.count ==> #[trigger] self.row_has(values, row, val)
        &&& forall|col: int, val: int|
            0 <= col < self.count && 0 <= val < self.count ==> #[trigger] self.column_has(values, col, val)
        &&& forall|x: int, y: int, val: int|
            0 <= x < self.rows && 0 <= y < self.cols && 0 <= val < self.count ==> #[trigger] self.block_has(
                values,
                x,
                y,
                val,
            )
    }

    /// The state of a builder while a board's clauses are put into it: every
    /// name is the place of a possibility that is left on the board, and the
    /// index holds the numbers of the names.
    pub open(crate) spec fn building(&self, pb: ProblemBuilder<usize>) -> bool {
        &&& pb.wf()
        &&& indexed(pb.index(), pb.names())
        &&& forall|i: int|
            0 <= i < pb.names().len() ==> (#[trigger] pb.names()[i]) < self.data@.len() && self.data@[pb.names()[i] as int]
    }

    /// Every rule that is due and stands before `mark` has its clause.
    pub open(crate) spec fn stated_upto(
        &self,
        names: Seq<usize>,
        clauses: Seq<Seq<Literal>>,
        mark: (int, int, int, int),
    ) -> bool {
        forall|rule: Rule|
            self.due(rule) && earlier(#[trigger] key(rule), mark) ==> exists|c: int|
                0 <= c < clauses.len() && states(names, #[trigger] clauses[c], self.allowed(rule))
    }

    /// Every clause is the clause of a rule that is due.
    pub open(crate) spec fn all_due(&self, names: Seq<usize>, clauses: Seq<Seq<Literal>>) -> bool {
        &&& forall|c: int|
            0 <= c < clauses.len() ==> exists|rule: Rule|
                self.due(rule) && states(names, #[trigger] clauses[c], #[trigger] self.allowed(rule))
        &&& forall|c: int| 0 <= c < clauses.len() ==> (#[trigger] clauses[c]).len() > 0
    }

    /// The rule allows nothing: no possibility is left that would meet it.
    pub open(crate) spec fn bare(&self, rule: Rule) -> bool {
        forall|p: (usize, bool)| !self.allowed(rule).contains(p)
    }

    /// The board is blocked: a rule that is due allows nothing, because a
    /// cell has no value left, or a value has no cell left in a row, a
    /// column or a block.
    pub open(crate) spec fn blocked(&self) -> bool {
        exists|rule: Rule| self.due(rule) && #[trigger] self.bare(rule)
    }

    /// The board is small: 22 possibilities are left on it at most, so that
    /// its problem has 22 variables at most and the search is sure of an
    /// answer.
    pub open(crate) spec fn small(&self) -> bool {
        count_true(self.data@) <= 22
    }

    /// The clauses over the names are the board's problem: the names are
    /// places of possibilities that are left, each once; every rule that is
    /// due has its clause, since each stands before the mark that begins
    /// with 5, and every clause is the clause of such a rule.
    pub open(crate) spec fn encoded(&self, names: Seq<usize>, clauses: Seq<Seq<Literal>>) -> bool {
        &&& forall|i: int|
            0 <= i < names.len() ==> (#[trigger] names[i]) < self.data@.len() && self.data@[names[i] as int]
        &&& forall|i: int, j: int|
            0 <= i < names.len() && 0 <= j < names.len() && #[trigger] names[i] == #[trigger] names[j] ==> i == j
        &&& forall|c: int| 0 <= c < clauses.len() ==> lits_in_range(#[trigger] clauses[c], names.len())
        &&& self.stated_upto(names, clauses, (5, 0, 0, 0))
        &&& self.all_due(names, clauses)
    }

    /// One more clause, the clause of the rule that stands at `mark`, takes
    /// the rules that are stated up to `next`, where no other rule that is
    /// due stands between the two.
    pub(crate) proof fn lemma_stated_next(
        &self,
        before: ProblemBuilder<usize>,
        after: ProblemBuilder<usize>,
        rule: Rule,
        mark: (int, int, int, int),
        next: (int, int, int, int),
    )
        requires
            before.wf(),
            extends(before, after),
            after.clauses().len() == before.clauses().len() + 1,
            states(after.names(), after.clauses().last(), self.allowed(rule)),
            after.clauses().last().len() > 0,
            self.due(rule),
            self.stated_upto(before.names(), before.clauses(), mark),
            self.all_due(before.names(), before.clauses()),
            forall|other: Rule|
                self.due(other) && earlier(#[trigger] key(other), next) ==> earlier(key(other), mark) || other
                    == rule,
        ensures
            self.stated_upto(after.names(), after.clauses(), next),
            self.all_due(after.names(), after.clauses()),
    {
        let names = after.names();
        let clauses = after.clauses();
        assert forall|other: Rule| self.due(other) && earlier(#[trigger] key(other), next) implies exists|c: int|
            0 <= c < clauses.len() && states(names, #[trigger] clauses[c], self.allowed(other)) by {
            if other == rule {
                assert(states(names, clauses[clauses.len() - 1], self.allowed(other)));
            } else {
                let c = choose|c: int|
                    0 <= c < before.clauses().len() && states(
                        before.names(),
                        #[trigger] before.clauses()[c],
                        self.allowed(other),
                    );
                assert(lits_in_range(before.clauses()[c], before.names().len()));
                lemma_states_kept(before.names(), names, before.clauses()[c], self.allowed(other));
                assert(clauses[c] == before.clauses()[c]);
            }
        }
        assert forall|c: int| 0 <= c < clauses.len() implies exists|other: Rule|
            self.due(other) && states(names, #[trigger] clauses[c], #[trigger] self.allowed(other)) by {
            if c < before.clauses().len() {
                let other = choose|other: Rule|
                    self.due(other) && states(
                        before.names(),
                        #[trigger] before.clauses()[c],
                        #[trigger] self.allowed(other),
                    );
                assert(lits_in_range(before.clauses()[c], before.names().len()));
                lemma_states_kept(before.names(), names, before.clauses()[c], self.allowed(other));
                assert(clauses[c] == before.clauses()[c]);
            } else {
                assert(states(names, clauses[c], self.allowed(rule)));
            }
        }
        assert forall|c: int| 0 <= c < clauses.len() implies (#[trigger] clauses[c]).len() > 0 by {
            if c < before.clauses().len() {
                assert(clauses[c] == before.clauses()[c]);
            }
        }
    }

    /// Where no rule that is due stands between two marks, what is stated up
    /// to the one is stated up to the other.
    pub(crate) proof fn lemma_stated_skip(
        &self,
        names: Seq<usize>,
        clauses: Seq<Seq<Literal>>,
        mark: (int, int, int, int),
        next: (int, int, int, int),
    )
        requires
            self.stated_upto(names, clauses, mark),
            forall|other: Rule|
                self.due(other) && earlier(#[trigger] key(other), next) ==> earlier(key(other), mark),
        ensures
            self.stated_upto(names, clauses, next),
    {
    }

    /// Adds to the clause the literal that says that the possibility at
    /// `offset` is the one that holds, or that it is not.
    fn add(&self, cb: &mut ClauseBuilder<'_, usize>, offset: usize, negated: bool)
        requires
            self.wf(),
            old(cb).wf(),
            self.building(old(cb).builder()),
            old(cb).builder().names().len() < 1_000_000_000,
            offset < self.data@.len(),
            self.data@[offset as int],
        ensures
            final(cb).wf(),
            self.building(final(cb).builder()),
            final(cb).builder().names().len() <= old(cb).builder().names().len() + 1,
            old(cb).builder().names().len() <= final(cb).builder().names().len(),
            forall|i: int|
                0 <= i < old(cb).builder().names().len() ==> final(cb).builder().names()[i]
                    == #[trigger] old(cb).builder().names()[i],
            final(cb).builder().clauses().len() == old(cb).builder().clauses().len(),
            forall|c: int|
                0 <= c < final(cb).builder().clauses().len() && c != final(cb).spec_index()
                    ==> #[trigger] final(cb).builder().clauses()[c] == old(cb).builder().clauses()[c],
            final(cb).lits().len() == old(cb).lits().len() + 1,
            final(cb).lits() == old(cb).lits().push(final(cb).lits().last()),
            says(final(cb).builder().names(), final(cb).lits().last()) == (offset, negated),
            final(cb).spec_index() == old(cb).spec_index(),
            *final(final(cb).target()) == *final(old(cb).target()),
    {
        broadcast use vstd::std_specs::hash::group_hash_axioms;

        let ghost before = cb.builder();
        let ghost lits = cb.lits();
        let clause = cb.add_literal(offset, negated);
        proof {
            let after = clause.builder();
            lemma_numbered(before, after, offset, clause.lits().last().spec_id());
            assert(clause.lits() =~= lits.push(clause.lits().last()));
            assert forall|i: int| 0 <= i < after.names().len() implies (#[trigger] after.names()[i])
                < self.data@.len() && self.data@[after.names()[i] as int] by {
                if i < before.names().len() {
                    assert(after.names()[i] == before.names()[i]);
                }
            }
        }
    }

    /// Puts into the builder the clause that says that one of the
    /// possibilities at `start`, `start + step`, and so on, as many as there
    /// are values, holds. Returns `false` where none of them is left: the
    /// clause is then empty.
    fn one_of(&self, pb: &mut ProblemBuilder<usize>, start: usize, step: usize) -> (some: bool)
        requires
            self.wf(),
            self.building(*old(pb)),
            old(pb).names().len() < 900_000_000,
            start + (self.count - 1) * step < self.data@.len(),
        ensures
            self.building(*final(pb)),
            final(pb).names().len() <= old(pb).names().len() + 35,
            extends(*old(pb), *final(pb)),
            final(pb).clauses().len() == old(pb).clauses().len() + 1,
            states(
                final(pb).names(),
                final(pb).clauses().last(),
                self.line_upto(start as int, step as int, self.count as int),
            ),
            some == (final(pb).clauses().last().len() > 0),
    {
        let mut cb = pb.new_clause();
        let ghost prophecy = *final(cb.target());
        let mut k: usize = 0;
        let ghost names0 = old(pb).names().len();
        proof {
            assert(states(cb.builder().names(), cb.lits(), self.line_upto(start as int, step as int, 0)));
        }
        while k < self.count
            invariant
                k <= self.count,
                self.wf(),
                cb.wf(),
                self.building(cb.builder()),
                cb.builder().names().len() <= names0 + k,
                names0 < 900_000_000,
                start + (self.count - 1) * step < self.data@.len(),
                *final(cb.target()) == prophecy,
                cb.spec_index() == old(pb).clauses().len(),
                cb.builder().clauses().len() == old(pb).clauses().len() + 1,
                old(pb).names().len() <= cb.builder().names().len(),
                forall|i: int|
                    0 <= i < old(pb).names().len() ==> cb.builder().names()[i] == #[trigger] old(pb).names()[i],
                forall|c: int|
                    0 <= c < old(pb).clauses().len() ==> cb.builder().clauses()[c] == #[trigger] old(pb).clauses()[c],
                states(cb.builder().names(), cb.lits(), self.line_upto(start as int, step as int, k as int)),
            decreases self.count - k,
        {
            proof {
                assert(k * step <= (self.count - 1) * step) by (nonlinear_arith)
                    requires
                        k <= self.count - 1,
                        step >= 0,
                ;
            }
            let offset = start + k * step;
            let ghost before = cb.builder();
            let ghost lits = cb.lits();
            let ghost said = self.line_upto(start as int, step as int, k as int);
            let ghost more = self.line_upto(start as int, step as int, k + 1);
            proof {
                assert(offset == stride(start as int, step as int, k as int));
            }
            if self.data[offset] {
                self.add(&mut cb, offset, false);
                proof {
                    assert(more =~= said.insert((offset, false))) by {
                        assert forall|p: (usize, bool)| more.contains(p) implies said.insert(
                            (offset, false),
                        ).contains(p) by {
                            let j = choose|j: int|
                                0 <= j < k + 1 && p.0 == #[trigger] stride(start as int, step as int, j)
                                    && self.data@[p.0 as int];
                            if j < k {
                                assert(said.contains(p));
                            }
                        }
                        assert forall|p: (usize, bool)| said.insert((offset, false)).contains(p) implies more.contains(
                            p,
                        ) by {
                            if said.contains(p) {
                                let j = choose|j: int|
                                    0 <= j < k && p.0 == #[trigger] stride(start as int, step as int, j)
                                        && self.data@[p.0 as int];
                                assert(0 <= j < k + 1);
                            }
                        }
                    }
                    assert(lits_in_range(lits, before.names().len()));
                    lemma_states_more(
                        before.names(),
                        cb.builder().names(),
                        lits,
                        cb.lits().last(),
                        said,
                        more,
                    );
                }
            } else {
                proof {
                    assert(more =~= said) by {
                        assert forall|p: (usize, bool)| more.contains(p) implies said.contains(p) by {
                            let j = choose|j: int|
                                0 <= j < k + 1 && p.0 == #[trigger] stride(start as int, step as int, j)
                                    && self.data@[p.0 as int];
                            assert(j < k);
                        }
                        assert forall|p: (usize, bool)| said.contains(p) implies more.contains(p) by {
                            let j = choose|j: int|
                                0 <= j < k && p.0 == #[trigger] stride(start as int, step as int, j)
                                    && self.data@[p.0 as int];
                            assert(0 <= j < k + 1);
                        }
                    }
                }
            }
            k += 1;
        }
        cb.len() != 0
    }

    /// Puts into the builder the clause that says that one cell of the block
    /// at (`x`, `y`) has the value `val`. Returns `false` where the value is
    /// left in none of them: the clause is then empty.
    fn one_in_block(&self, pb: &mut ProblemBuilder<usize>, x: usize, y: usize, val: usize) -> (some: bool)
        requires
            self.wf(),
            self.building(*old(pb)),
            old(pb).names().len() < 900_000_000,
            x < self.rows,
            y < self.cols,
            val < self.count,
        ensures
            self.building(*final(pb)),
            final(pb).names().len() <= old(pb).names().len() + 1225,
            extends(*old(pb), *final(pb)),
            final(pb).clauses().len() == old(pb).clauses().len() + 1,
            states(
                final(pb).names(),
                final(pb).clauses().last(),
                self.block_upto(x as int, y as int, val as int, self.rows as int, 0),
            ),
            some == (final(pb).clauses().last().len() > 0),
    {
        let mut cb = pb.new_clause();
        let ghost prophecy = *final(cb.target());
        let ghost names0 = old(pb).names().len();
        proof {
            assert(self.rows <= 35 && self.cols <= 35 && self.rows >= 1 && self.cols >= 1) by (nonlinear_arith)
                requires
                    1 <= self.rows * self.cols <= 35,
            ;
            assert(states(
                cb.builder().names(),
                cb.lits(),
                self.block_upto(x as int, y as int, val as int, 0, 0),
            ));
        }
        let mut a: usize = 0;
        while a < self.rows
            invariant
                a <= self.rows,
                self.wf(),
                self.rows <= 35,
                self.cols <= 35,
                x < self.rows,
                y < self.cols,
                val < self.count,
                cb.wf(),
                self.building(cb.builder()),
                cb.builder().names().len() <= names0 + 35 * a,
                names0 < 900_000_000,
                *final(cb.target()) == prophecy,
                cb.spec_index() == old(pb).clauses().len(),
                cb.builder().clauses().len() == old(pb).clauses().len() + 1,
                old(pb).names().len() <= cb.builder().names().len(),
                forall|i: int|
                    0 <= i < old(pb).names().len() ==> cb.builder().names()[i] == #[trigger] old(pb).names()[i],
                forall|c: int|
                    0 <= c < old(pb).clauses().len() ==> cb.builder().clauses()[c] == #[trigger] old(pb).clauses()[c],
                states(
                    cb.builder().names(),
                    cb.lits(),
                    self.block_upto(x as int, y as int, val as int, a as int, 0),
                ),
            decreases self.rows - a,
        {
            let mut b: usize = 0;
            while b < self.cols
                invariant
                    b <= self.cols,
                    a < self.rows,
                    self.wf(),
                    self.rows <= 35,
                    self.cols <= 35,
                    x < self.rows,
                    y < self.cols,
                    val < self.count,
                    cb.wf(),
                    self.building(cb.builder()),
                    cb.builder().names().len() <= names0 + 35 * a + b,
                    names0 < 900_000_000,
                    *final(cb.target()) == prophecy,
                    cb.spec_index() == old(pb).clauses().len(),
                    cb.builder().clauses().len() == old(pb).clauses().len() + 1,
                    old(pb).names().len() <= cb.builder().names().len(),
                    forall|i: int|
                        0 <= i < old(pb).names().len() ==> cb.builder().names()[i] == #[trigger] old(pb).names()[i],
                    forall|c: int|
                        0 <= c < old(pb).clauses().len() ==> cb.builder().clauses()[c] == #[trigger] old(pb).clauses()[c],
                    states(
                        cb.builder().names(),
                        cb.lits(),
                        self.block_upto(x as int, y as int, val as int, a as int, b as int),
                    ),
                decreases self.cols - b,
            {
                proof {
                    assert(x * self.cols + b < self.rows * self.cols) by (nonlinear_arith)
                        requires
                            x < self.rows,
                            b < self.cols,
                    ;
                    assert(y * self.rows + a < self.rows * self.cols) by (nonlinear_arith)
                        requires
                            y < self.cols,
                            a < self.rows,
                    ;
                    assert(x * self.cols <= 1225 && y * self.rows <= 1225) by (nonlinear_arith)
                        requires
                            x < 35,
                            y < 35,
                            self.rows <= 35,
                            self.cols <= 35,
                    ;
                }
                let offset = self.offset(x * self.cols + b, y * self.rows + a, val);
                let ghost before = cb.builder();
                let ghost lits = cb.lits();
                let ghost said = self.block_upto(x as int, y as int, val as int, a as int, b as int);
                let ghost more = self.block_upto(x as int, y as int, val as int, a as int, b + 1);
                proof {
                    assert(offset == self.block_at(x as int, y as int, val as int, a as int, b as int));
                }
                if self.data[offset] {
                    self.add(&mut cb, offset, false);
                    proof {
                        assert(more =~= said.insert((offset, false))) by {
                            assert forall|p: (usize, bool)| more.contains(p) implies said.insert(
                                (offset, false),
                            ).contains(p) by {
                                let (i, j) = choose|i: int, j: int|
                                    0 <= i < self.rows && 0 <= j < self.cols && (i < a || (i == a && j < b + 1))
                                        && p.0 == #[trigger] self.block_at(x as int, y as int, val as int, i, j)
                                        && self.data@[p.0 as int];
                                if i < a || j < b {
                                    assert(said.contains(p));
                                }
                            }
                            assert forall|p: (usize, bool)| said.insert((offset, false)).contains(p) implies more.contains(
                                p,
                            ) by {
                                if said.contains(p) {
                                    let (i, j) = choose|i: int, j: int|
                                        0 <= i < self.rows && 0 <= j < self.cols && (i < a || (i == a && j < b))
                                            && p.0 == #[trigger] self.block_at(
                                            x as int,
                                            y as int,
                                            val as int,
                                            i,
                                            j,
                                        ) && self.data@[p.0 as int];
                                    assert(i < a || (i == a && j < b + 1));
                                }
                            }
                        }
                        assert(lits_in_range(lits, before.names().len()));
                        lemma_states_more(
                            before.names(),
                            cb.builder().names(),
                            lits,
                            cb.lits().last(),
                            said,
                            more,
                        );
                    }
                } else {
                    proof {
                        assert(more =~= said) by {
                            assert forall|p: (usize, bool)| more.contains(p) implies said.contains(p) by {
                                let (i, j) = choose|i: int, j: int|
                                    0 <= i < self.rows && 0 <= j < self.cols && (i < a || (i == a && j < b + 1))
                                        && p.0 == #[trigger] self.block_at(x as int, y as int, val as int, i, j)
                                        && self.data@[p.0 as int];
                                assert(i < a || j < b);
                            }
                            assert forall|p: (usize, bool)| said.contains(p) implies more.contains(p) by {
                                let (i, j) = choose|i: int, j: int|
                                    0 <= i < self.rows && 0 <= j < self.cols && (i < a || (i == a && j < b))
                                        && p.0 == #[trigger] self.block_at(x as int, y as int, val as int, i, j)
                                        && self.data@[p.0 as int];
                                assert(i < a || (i == a && j < b + 1));
                            }
                        }
                    }
                }
                b += 1;
            }
            proof {
                let full = self.block_upto(x as int, y as int, val as int, a as int, self.cols as int);
                let next = self.block_upto(x as int, y as int, val as int, a + 1, 0);
                assert(full =~= next) by {
                    assert forall|p: (usize, bool)| full.contains(p) implies next.contains(p) by {
                        let (i, j) = choose|i: int, j: int|
                            0 <= i < self.rows && 0 <= j < self.cols && (i < a || (i == a && j < self.cols))
                                && p.0 == #[trigger] self.block_at(x as int, y as int, val as int, i, j)
                                && self.data@[p.0 as int];
                        assert(i < a + 1);
                    }
                    assert forall|p: (usize, bool)| next.contains(p) implies full.contains(p) by {
                        let (i, j) = choose|i: int, j: int|
                            0 <= i < self.rows && 0 <= j < self.cols && (i < a + 1 || (i == a + 1 && j < 0))
                                && p.0 == #[trigger] self.block_at(x as int, y as int, val as int, i, j)
                                && self.data@[p.0 as int];
                        assert(i < a || (i == a && j < self.cols));
                    }
                }
            }
            a += 1;
        }
        cb.len() != 0
    }

    /// Puts into the builder, for every two values that are left in the cell
    /// `cell`, the clause that says that the cell does not have both.
    fn at_most_one(&self, pb: &mut ProblemBuilder<usize>, cell: usize)
        requires
            self.wf(),
            self.building(*old(pb)),
            old(pb).names().len() < 900_000_000,
            cell < self.count * self.count,
            self.stated_upto(old(pb).names(), old(pb).clauses(), (4, cell as int, 0, 0)),
            self.all_due(old(pb).names(), old(pb).clauses()),
        ensures
            self.building(*final(pb)),
            final(pb).names().len() <= old(pb).names().len() + 2450,
            self.stated_upto(final(pb).names(), final(pb).clauses(), (4, cell + 1, 0, 0)),
            self.all_due(final(pb).names(), final(pb).clauses()),
    {
        let ghost names0 = pb.names().len();
        let count = self.count;
        proof {
            assert(cell * count + count <= count * count * count) by (nonlinear_arith)
                requires
                    cell + 1 <= count * count,
                    count >= 0,
            ;
            assert(count * count * count <= 42875) by (nonlinear_arith)
                requires
                    count <= 35,
            ;
            assert(cell * count >= 0) by (nonlinear_arith)
                requires
                    cell >= 0,
                    count >= 0,
            ;
        }
        let base = cell * count;
        let mut j: usize = 0;
        while j < count
            invariant
                j <= count,
                count == self.count,
                cell < count * count,
                base == cell * count,
                self.wf(),
                base + count <= self.data@.len(),
                self.data@.len() <= 42875,
                self.building(*pb),
                pb.names().len() <= names0 + 70 * j,
                names0 < 900_000_000,
                self.stated_upto(pb.names(), pb.clauses(), (4, cell as int, j as int, 0)),
                self.all_due(pb.names(), pb.clauses()),
            decreases count - j,
        {
            if self.data[base + j] {
                let mut k: usize = 0;
                while k < j
                    invariant
                        k <= j,
                        j < count,
                        count == self.count,
                        cell < count * count,
                        base == cell * count,
                        self.wf(),
                        base + count <= self.data@.len(),
                        self.data@.len() <= 42875,
                        self.data@[base + j],
                        self.building(*pb),
                        pb.names().len() <= names0 + 70 * j + 2 * k,
                        names0 < 900_000_000,
                        self.stated_upto(pb.names(), pb.clauses(), (4, cell as int, j as int, k as int)),
                        self.all_due(pb.names(), pb.clauses()),
                    decreases j - k,
                {
                    let ghost before = *pb;
                    if self.data[base + k] {
                        self.deny_both(pb, base + j, base + k);
                        proof {
                            let rule = Rule::Pair { cell: cell as int, high: j as int, low: k as int };
                            assert(self.allowed(rule) =~= deny(0, base + j, base + k));
                            self.lemma_stated_next(
                                before,
                                *pb,
                                rule,
                                (4, cell as int, j as int, k as int),
                                (4, cell as int, j as int, k + 1),
                            );
                        }
                    } else {
                        proof {
                            self.lemma_stated_skip(
                                pb.names(),
                                pb.clauses(),
                                (4, cell as int, j as int, k as int),
                                (4, cell as int, j as int, k + 1),
                            );
                        }
                    }
                    k += 1;
                }
            }
            proof {
                self.lemma_stated_skip(
                    pb.names(),
                    pb.clauses(),
                    if self.data@[base + j] {
                        (4, cell as int, j as int, j as int)
                    } else {
                        (4, cell as int, j as int, 0)
                    },
                    (4, cell as int, j + 1, 0),
                );
            }
            j += 1;
        }
        proof {
            self.lemma_stated_skip(pb.names(), pb.clauses(), (4, cell as int, count as int, 0), (4, cell + 1, 0, 0));
        }
    }

    /// Puts into the builder the clause that says that not both of the
    /// possibilities at `high` and at `low` hold.
    fn deny_both(&self, pb: &mut ProblemBuilder<usize>, high: usize, low: usize)
        requires
            self.wf(),
            self.building(*old(pb)),
            old(pb).names().len() < 950_000_000,
            high < self.data@.len(),
            low < self.data@.len(),
            self.data@[high as int],
            self.data@[low as int],
        ensures
            self.building(*final(pb)),
            final(pb).names().len() <= old(pb).names().len() + 2,
            extends(*old(pb), *final(pb)),
            final(pb).clauses().len() == old(pb).clauses().len() + 1,
            states(final(pb).names(), final(pb).clauses().last(), deny(0, high as int, low as int)),
            final(pb).clauses().last().len() == 2,
    {
        let mut cb = pb.new_clause();
        let ghost names0 = cb.builder().names();
        self.add(&mut cb, high, true);
        let ghost names1 = cb.builder().names();
        let ghost first = cb.lits();
        self.add(&mut cb, low, true);
        proof {
            let names = cb.builder().names();
            let lits = cb.lits();
            let allowed = deny(0, high as int, low as int);
            assert(lits_in_range(first, names1.len()));
            assert(first[0].var() < names1.len());
            assert(lits[0] == first[0]);
            assert(says(names, lits[0]) == (high, true));
            assert(says(names, lits[1]) == (low, true));
            assert forall|p: (usize, bool)| #[trigger] allowed.contains(p) implies exists|i: int|
                0 <= i < lits.len() && #[trigger] says(names, lits[i]) == p by {
                if p.0 == high {
                    assert(says(names, lits[0]) == p);
                } else {
                    assert(says(names, lits[1]) == p);
                }
            }
        }
    }

    /// Puts the board as a problem: for each cell a clause that one of the
    /// values left in it holds; for each column, each row and each block, and
    /// each value, a clause that the value holds in one of its cells; and for
    /// each cell, and each two values left in it, a clause that not both
    /// hold. The variables are named by the places of the possibilities on
    /// the board. `None` where one of the clauses came out empty: the board
    /// then has no completion.
    pub(crate) fn create_problem(&self) -> (made: Option<Problem<usize>>)
        requires
            self.wf(),
        ensures
            match made {
                Some(problem) => {
                    &&& problem.wf()
                    &&& self.encoded(problem.names(), problem.origin())
                    &&& problem.conflicts() == 0
                    &&& problem.size() == problem.names().len()
                    &&& (problem.solution() == Some(SolverResult::Sat) ==> problem.kept().len() == 0
                        && problem.spec_active() == 0)
                },
                None => forall|values: Seq<usize>| !self.completes(values),
            },
            made is None <==> self.blocked(),
    {
        let mut pb: ProblemBuilder<usize> = ProblemBuilder::new();
        let count = self.count;
        proof {
            assert(count * count <= 1225 && count * count * count <= 42875 && count * count >= 1) by (nonlinear_arith)
                requires
                    1 <= count <= 35,
            ;
        }
        // each cell must contain one of the possibilities
        let mut i: usize = 0;
        while i < count * count
            invariant
                i <= count * count,
                count == self.count,
                count * count <= 1225,
                self.wf(),
                self.building(pb),
                pb.names().len() <= 35 * i,
                self.stated_upto(pb.names(), pb.clauses(), (0, i as int, 0, 0)),
                self.all_due(pb.names(), pb.clauses()),
            decreases count * count - i,
        {
            proof {
                assert(i * count + (count - 1) * 1 < count * count * count) by (nonlinear_arith)
                    requires
                        i + 1 <= count * count,
                        count >= 1,
                ;
                assert(i * count >= 0) by (nonlinear_arith)
                    requires
                        i >= 0,
                        count >= 0,
                ;
                assert(i * count <= 1225 * 35) by (nonlinear_arith)
                    requires
                        i <= 1225,
                        count <= 35,
                ;
            }
            let ghost before = pb;
            let ghost rule = Rule::Cell { cell: i as int };
            if !self.one_of(&mut pb, i * count, 1) {
                proof {
                    self.lemma_rule_unmet(pb.names(), pb.clauses().last(), rule);
                    self.lemma_rule_bare(pb.names(), pb.clauses().last(), rule);
                }
                return None;
            }
            proof {
                self.lemma_stated_next(before, pb, rule, (0, i as int, 0, 0), (0, i + 1, 0, 0));
            }
            i += 1;
        }
        proof {
            self.lemma_stated_skip(pb.names(), pb.clauses(), (0, count * count, 0, 0), (1, 0, 0, 0));
        }
        // each column must contain one of each values
        let ghost names1 = pb.names().len();
        let mut col: usize = 0;
        while col < count
            invariant
                col <= count,
                count == self.count,
                count * count <= 1225,
                self.wf(),
                self.building(pb),
                names1 <= 42875,
                pb.names().len() <= names1 + 1225 * col,
                self.stated_upto(pb.names(), pb.clauses(), (1, col as int, 0, 0)),
                self.all_due(pb.names(), pb.clauses()),
            decreases count - col,
        {
            let mut val: usize = 0;
            while val < count
                invariant
                    val <= count,
                    col < count,
                    count == self.count,
                    count * count <= 1225,
                    self.wf(),
                    self.building(pb),
                    names1 <= 42875,
                    pb.names().len() <= names1 + 1225 * col + 35 * val,
                    self.stated_upto(pb.names(), pb.clauses(), (1, col as int, val as int, 0)),
                    self.all_due(pb.names(), pb.clauses()),
                decreases count - val,
            {
                proof {
                    lemma_offset_bound(count - 1, col as int, val as int, count as int);
                    lemma_offset_bound(0, col as int, val as int, count as int);
                    assert((count - 1) * (count * count) == (count - 1) * count * count) by (nonlinear_arith);
                    assert(col * count <= 1225) by (nonlinear_arith)
                        requires
                            col < 35,
                            count <= 35,
                    ;
                }
                let ghost before = pb;
                let ghost rule = Rule::Column { col: col as int, val: val as int };
                if !self.one_of(&mut pb, col * count + val, count * count) {
                    proof {
                        self.lemma_rule_unmet(pb.names(), pb.clauses().last(), rule);
                    self.lemma_rule_bare(pb.names(), pb.clauses().last(), rule);
                    }
                    return None;
                }
                proof {
                    self.lemma_stated_next(
                        before,
                        pb,
                        rule,
                        (1, col as int, val as int, 0),
                        (1, col as int, val + 1, 0),
                    );
                }
                val += 1;
            }
            proof {
                self.lemma_stated_skip(
                    pb.names(),
                    pb.clauses(),
                    (1, col as int, count as int, 0),
                    (1, col + 1, 0, 0),
                );
            }
            col += 1;
        }
        proof {
            self.lemma_stated_skip(pb.names(), pb.clauses(), (1, count as int, 0, 0), (2, 0, 0, 0));
        }
        // each row must contain one of each values
        let ghost names2 = pb.names().len();
        let mut row: usize = 0;
        while row < count
            invariant
                row <= count,
                count == self.count,
                count * count <= 1225,
                self.wf(),
                self.building(pb),
                names2 <= 42875 + 42875,
                pb.names().len() <= names2 + 1225 * row,
                self.stated_upto(pb.names(), pb.clauses(), (2, row as int, 0, 0)),
                self.all_due(pb.names(), pb.clauses()),
            decreases count - row,
        {
            let mut val: usize = 0;
            while val < count
                invariant
                    val <= count,
                    row < count,
                    count == self.count,
                    count * count <= 1225,
                    self.wf(),
                    self.building(pb),
                    names2 <= 42875 + 42875,
                    pb.names().len() <= names2 + 1225 * row + 35 * val,
                    self.stated_upto(pb.names(), pb.clauses(), (2, row as int, val as int, 0)),
                    self.all_due(pb.names(), pb.clauses()),
                decreases count - val,
            {
                proof {
                    lemma_offset_bound(row as int, count - 1, val as int, count as int);
                    lemma_offset_bound(row as int, 0, val as int, count as int);
                    assert(row * count * count <= 42875 && row * count <= 1225) by (nonlinear_arith)
                        requires
                            row < 35,
                            count <= 35,
                    ;
                }
                let ghost before = pb;
                let ghost rule = Rule::Row { row: row as int, val: val as int };
                if !self.one_of(&mut pb, row * count * count + val, count) {
                    proof {
                        self.lemma_rule_unmet(pb.names(), pb.clauses().last(), rule);
                    self.lemma_rule_bare(pb.names(), pb.clauses().last(), rule);
                    }
                    return None;
                }
                proof {
                    self.lemma_stated_next(
                        before,
                        pb,
                        rule,
                        (2, row as int, val as int, 0),
                        (2, row as int, val + 1, 0),
                    );
                }
                val += 1;
            }
            proof {
                self.lemma_stated_skip(
                    pb.names(),
                    pb.clauses(),
                    (2, row as int, count as int, 0),
                    (2, row + 1, 0, 0),
                );
            }
            row += 1;
        }
        proof {
            self.lemma_stated_skip(pb.names(), pb.clauses(), (2, count as int, 0, 0), (3, 0, 0, 0));
        }
        // each block must contain one of each values
        let ghost names3 = pb.names().len();
        proof {
            assert(self.rows <= 35 && self.cols <= 35) by (nonlinear_arith)
                requires
                    1 <= self.rows * self.cols <= 35,
            ;
        }
        let mut x: usize = 0;
        while x < self.rows
            invariant
                x <= self.rows,
                self.rows <= 35,
                self.cols <= 35,
                count == self.count,
                self.wf(),
                self.building(pb),
                names3 <= 42875 + 85750,
                pb.names().len() <= names3 + 1500625 * x,
                self.stated_upto(pb.names(), pb.clauses(), (3, x as int, 0, 0)),
                self.all_due(pb.names(), pb.clauses()),
            decreases self.rows - x,
        {
            let mut y: usize = 0;
            while y < self.cols
                invariant
                    y <= self.cols,
                    x < self.rows,
                    self.rows <= 35,
                    self.cols <= 35,
                    count == self.count,
                    self.wf(),
                    self.building(pb),
                    names3 <= 42875 + 85750,
                    pb.names().len() <= names3 + 1500625 * x + 42875 * y,
                    self.stated_upto(pb.names(), pb.clauses(), (3, x as int, y as int, 0)),
                    self.all_due(pb.names(), pb.clauses()),
                decreases self.cols - y,
            {
                let mut val: usize = 0;
                while val < count
                    invariant
                        val <= count,
                        y < self.cols,
                        x < self.rows,
                        self.rows <= 35,
                        self.cols <= 35,
                        count == self.count,
                        self.wf(),
                        self.building(pb),
                        names3 <= 42875 + 85750,
                        pb.names().len() <= names3 + 1500625 * x + 42875 * y + 1225 * val,
                        self.stated_upto(pb.names(), pb.clauses(), (3, x as int, y as int, val as int)),
                        self.all_due(pb.names(), pb.clauses()),
                    decreases count - val,
                {
                    let ghost before = pb;
                    let ghost rule = Rule::Block { x: x as int, y: y as int, val: val as int };
                    if !self.one_in_block(&mut pb, x, y, val) {
                        proof {
                            self.lemma_rule_unmet(pb.names(), pb.clauses().last(), rule);
                    self.lemma_rule_bare(pb.names(), pb.clauses().last(), rule);
                        }
                        return None;
                    }
                    proof {
                        self.lemma_stated_next(
                            before,
                            pb,
                            rule,
                            (3, x as int, y as int, val as int),
                            (3, x as int, y as int, val + 1),
                        );
                    }
                    val += 1;
                }
                proof {
                    self.lemma_stated_skip(
                        pb.names(),
                        pb.clauses(),
                        (3, x as int, y as int, count as int),
                        (3, x as int, y + 1, 0),
                    );
                }
                y += 1;
            }
            proof {
                self.lemma_stated_skip(
                    pb.names(),
                    pb.clauses(),
                    (3, x as int, self.cols as int, 0),
                    (3, x + 1, 0, 0),
                );
            }
            x += 1;
        }
        proof {
            self.lemma_stated_skip(pb.names(), pb.clauses(), (3, self.rows as int, 0, 0), (4, 0, 0, 0));
        }
        // only one option may be chosen
        let ghost names4 = pb.names().len();
        let mut i: usize = 0;
        while i < count * count
            invariant
                i <= count * count,
                count == self.count,
                count * count <= 1225,
                self.wf(),
                self.building(pb),
                names4 <= 42875 + 85750 + 52521875,
                pb.names().len() <= names4 + 2450 * i,
                self.stated_upto(pb.names(), pb.clauses(), (4, i as int, 0, 0)),
                self.all_due(pb.names(), pb.clauses()),
            decreases count * count - i,
        {
            self.at_most_one(&mut pb, i);
            i += 1;
        }
        proof {
            lemma_indexed(pb.index(), pb.names(), 0);
            self.lemma_stated_skip(pb.names(), pb.clauses(), (4, count * count, 0, 0), (5, 0, 0, 0));
            self.lemma_not_blocked(pb.names(), pb.clauses());
        }
        Some(pb.as_problem())
    }

    /// The possibility that a cell has a value, where it is left, is one of
    /// those that the clauses of its cell, its row and its column say.
    pub(crate) proof fn lemma_member(&self, row: int, col: int, val: int) -> (name: usize)
        requires
            self.wf(),
            0 <= row < self.count,
            0 <= col < self.count,
            0 <= val < self.count,
            self.possible(row, col, val),
        ensures
            name == self.at(row, col, val),
            cell_of(name, self.size()) == row * self.count + col,
            value_of(name, self.size()) == val,
            self.allowed(Rule::Cell { cell: row * self.count + col }).contains((name, false)),
            self.allowed(Rule::Row { row, val }).contains((name, false)),
            self.allowed(Rule::Column { col, val }).contains((name, false)),
    {
        let count = self.count as int;
        lemma_place(row, col, val, count);
        let cell = row * count + col;
        lemma_parts_of(cell, val, count);
        let name = (row * count * count + col * count + val) as usize;
        assert(name == stride(cell * count, 1, val));
        assert(name == stride(row * count * count + val, count, col));
        assert(row * count * count == row * (count * count)) by (nonlinear_arith);
        assert(name == stride(col * count + val, count * count, row));
        name
    }

    /// The possibility that a cell of a block has a value, where it is left,
    /// is one of those that the block's clause for the value says.
    pub(crate) proof fn lemma_block_member(&self, x: int, y: int, val: int, a: int, b: int) -> (name: usize)
        requires
            self.wf(),
            0 <= x < self.rows,
            0 <= y < self.cols,
            0 <= a < self.rows,
            0 <= b < self.cols,
            0 <= val < self.count,
            self.possible(x * self.cols + b, y * self.rows + a, val),
        ensures
            name == self.block_at(x, y, val, a, b),
            cell_of(name, self.size()) == (x * self.cols + b) * self.count + (y * self.rows + a),
            value_of(name, self.size()) == val,
            self.allowed(Rule::Block { x, y, val }).contains((name, false)),
    {
        let count = self.count as int;
        self.lemma_block_cell(x, y, a, b);
        let row = x * self.cols + b;
        let col = y * self.rows + a;
        lemma_place(row, col, val, count);
        lemma_parts_of(row * count + col, val, count);
        let name = (row * count * count + col * count + val) as usize;
        assert(name == self.block_at(x, y, val, a, b));
        name
    }

    /// What a cell's clause says is that the cell has a value that is left.
    pub(crate) proof fn lemma_cell_place(&self, p: (usize, bool), row: int, col: int) -> (val: int)
        requires
            self.wf(),
            0 <= row < self.count,
            0 <= col < self.count,
            self.allowed(Rule::Cell { cell: row * self.count + col }).contains(p),
        ensures
            0 <= val < self.count,
            !p.1,
            cell_of(p.0, self.size()) == row * self.count + col,
            value_of(p.0, self.size()) == val,
            self.possible(row, col, val),
    {
        let count = self.count as int;
        let cell = row * count + col;
        let k = choose|k: int| 0 <= k < count && p.0 == #[trigger] stride(cell * count, 1, k) && self.data@[p.0 as int];
        lemma_place(row, col, k, count);
        lemma_parts_of(cell, k, count);
        k
    }

    /// What a row's clause for a value says is that a cell of the row has the
    /// value.
    pub(crate) proof fn lemma_row_place(&self, p: (usize, bool), row: int, val: int) -> (col: int)
        requires
            self.wf(),
            0 <= row < self.count,
            0 <= val < self.count,
            self.allowed(Rule::Row { row, val }).contains(p),
        ensures
            0 <= col < self.count,
            !p.1,
            cell_of(p.0, self.size()) == row * self.count + col,
            value_of(p.0, self.size()) == val,
    {
        let count = self.count as int;
        let k = choose|k: int|
            0 <= k < count && p.0 == #[trigger] stride(row * count * count + val, count, k) && self.data@[p.0 as int];
        lemma_place(row, k, val, count);
        lemma_parts_of(row * count + k, val, count);
        k
    }

    /// What a column's clause for a value says is that a cell of the column
    /// has the value.
    pub(crate) proof fn lemma_column_place(&self, p: (usize, bool), col: int, val: int) -> (row: int)
        requires
            self.wf(),
            0 <= col < self.count,
            0 <= val < self.count,
            self.allowed(Rule::Column { col, val }).contains(p),
        ensures
            0 <= row < self.count,
            !p.1,
            cell_of(p.0, self.size()) == row * self.count + col,
            value_of(p.0, self.size()) == val,
    {
        let count = self.count as int;
        let k = choose|k: int|
            0 <= k < count && p.0 == #[trigger] stride(col * count + val, count * count, k) && self.data@[p.0 as int];
        lemma_place(k, col, val, count);
        lemma_parts_of(k * count + col, val, count);
        assert(k * count * count == k * (count * count)) by (nonlinear_arith);
        k
    }

    /// What a block's clause for a value says is that a cell of the block has
    /// the value.
    pub(crate) proof fn lemma_block_place(&self, p: (usize, bool), x: int, y: int, val: int) -> (at: (int, int))
        requires
            self.wf(),
            0 <= x < self.rows,
            0 <= y < self.cols,
            0 <= val < self.count,
            self.allowed(Rule::Block { x, y, val }).contains(p),
        ensures
            0 <= at.0 < self.rows,
            0 <= at.1 < self.cols,
            !p.1,
            cell_of(p.0, self.size()) == (x * self.cols + at.1) * self.count + (y * self.rows + at.0),
            value_of(p.0, self.size()) == val,
    {
        let count = self.count as int;
        let (a, b) = choose|a: int, b: int|
            0 <= a < self.rows && 0 <= b < self.cols && (a < self.rows || (a == self.rows && b < 0)) && p.0
                == #[trigger] self.block_at(x, y, val, a, b) && self.data@[p.0 as int];
        self.lemma_block_cell(x, y, a, b);
        let row = x * self.cols + b;
        let col = y * self.rows + a;
        lemma_place(row, col, val, count);
        lemma_parts_of(row * count + col, val, count);
        (a, b)
    }

    /// The values that complete a board agree with something that each rule's
    /// clause says.
    pub proof fn lemma_rule_met(&self, values: Seq<usize>, rule: Rule)
        requires
            self.wf(),
            self.completes(values),
            self.due(rule),
        ensures
            exists|p: (usize, bool)| self.allowed(rule).contains(p) && #[trigger] fits(values, self.size(), p),
    {
        let count = self.count as int;
        match rule {
            Rule::Cell { cell } => {
                lemma_cell_split(cell, count);
                let row = cell / count;
                let col = cell % count;
                let v = self.entry(values, row, col) - 1;
                assert(self.possible(row, col, v));
                let name = self.lemma_member(row, col, v);
                assert(rule == Rule::Cell { cell: row * count + col });
                assert(self.allowed(rule).contains((name, false)) && fits(values, self.size(), (name, false)));
            },
            Rule::Column { col, val } => {
                assert(self.column_has(values, col, val));
                let row = choose|row: int| 0 <= row < self.count && #[trigger] self.entry(values, row, col) == val + 1;
                assert(self.possible(row, col, self.entry(values, row, col) - 1));
                let name = self.lemma_member(row, col, val);
                assert(self.allowed(rule).contains((name, false)) && fits(values, self.size(), (name, false)));
            },
            Rule::Row { row, val } => {
                assert(self.row_has(values, row, val));
                let col = choose|col: int| 0 <= col < self.count && #[trigger] self.entry(values, row, col) == val + 1;
                assert(self.possible(row, col, self.entry(values, row, col) - 1));
                let name = self.lemma_member(row, col, val);
                assert(self.allowed(rule).contains((name, false)) && fits(values, self.size(), (name, false)));
            },
            Rule::Block { x, y, val } => {
                assert(self.block_has(values, x, y, val));
                let (a, b) = choose|a: int, b: int|
                    0 <= a < self.rows && 0 <= b < self.cols && #[trigger] self.entry(
                        values,
                        x * self.cols + b,
                        y * self.rows + a,
                    ) == val + 1;
                let row = x * self.cols + b;
                let col = y * self.rows + a;
                self.lemma_block_cell(x, y, a, b);
                assert(self.possible(row, col, self.entry(values, row, col) - 1));
                let name = self.lemma_block_member(x, y, val, a, b);
                assert(self.allowed(rule).contains((name, false)) && fits(values, self.size(), (name, false)));
            },
            Rule::Pair { cell, high, low } => {
                lemma_cell_split(cell, count);
                let row = cell / count;
                let col = cell % count;
                lemma_parts_of(cell, high, count);
                lemma_parts_of(cell, low, count);
                let e = self.entry(values, row, col);
                let first = (cell * count + high) as usize;
                let second = (cell * count + low) as usize;
                if e != high + 1 {
                    assert(self.allowed(rule).contains((first, true)) && fits(values, self.size(), (first, true)));
                } else {
                    assert(self.allowed(rule).contains((second, true)) && fits(values, self.size(), (second, true)));
                }
            },
        }
    }

    /// A cell of a block is a cell of the board.
    pub(crate) proof fn lemma_block_cell(&self, x: int, y: int, a: int, b: int)
        requires
            self.wf(),
            0 <= x < self.rows,
            0 <= y < self.cols,
            0 <= a < self.rows,
            0 <= b < self.cols,
        ensures
            0 <= x * self.cols + b < self.count,
            0 <= y * self.rows + a < self.count,
    {
        let rows = self.rows as int;
        let cols = self.cols as int;
        assert(0 <= x * cols + b < rows * cols) by (nonlinear_arith)
            requires
                0 <= x < rows,
                0 <= b < cols,
        ;
        assert(0 <= y * rows + a < rows * cols) by (nonlinear_arith)
            requires
                0 <= y < cols,
                0 <= a < rows,
        ;
    }

    /// A rule whose clause is empty allows nothing.
    pub(crate) proof fn lemma_rule_bare(&self, names: Seq<usize>, clause: Seq<Literal>, rule: Rule)
        requires
            self.due(rule),
            states(names, clause, self.allowed(rule)),
            clause.len() == 0,
        ensures
            self.bare(rule),
            self.blocked(),
    {
        assert forall|p: (usize, bool)| !self.allowed(rule).contains(p) by {
            if self.allowed(rule).contains(p) {
                let i = choose|i: int| 0 <= i < clause.len() && #[trigger] says(names, clause[i]) == p;
            }
        }
    }

    /// A board whose rules all have their clauses, none of them empty, is
    /// not blocked.
    pub(crate) proof fn lemma_not_blocked(&self, names: Seq<usize>, clauses: Seq<Seq<Literal>>)
        requires
            self.stated_upto(names, clauses, (5, 0, 0, 0)),
            self.all_due(names, clauses),
        ensures
            !self.blocked(),
    {
        assert forall|rule: Rule| self.due(rule) implies !#[trigger] self.bare(rule) by {
            assert(earlier(key(rule), (5, 0, 0, 0)));
            let c = choose|c: int| 0 <= c < clauses.len() && states(names, #[trigger] clauses[c], self.allowed(rule));
            assert(clauses[c].len() > 0);
            assert(self.allowed(rule).contains(says(names, clauses[c][0])));
        }
    }

    /// A rule whose clause is empty cannot be met: the board has no
    /// completion.
    pub proof fn lemma_rule_unmet(&self, names: Seq<usize>, clause: Seq<Literal>, rule: Rule)
        requires
            self.wf(),
            self.due(rule),
            states(names, clause, self.allowed(rule)),
            clause.len() == 0,
        ensures
            forall|values: Seq<usize>| !self.completes(values),
    {
        assert forall|values: Seq<usize>| !self.completes(values) by {
            if self.completes(values) {
                self.lemma_rule_met(values, rule);
                let p = choose|p: (usize, bool)|
                    self.allowed(rule).contains(p) && #[trigger] fits(values, self.count as int, p);
                assert(self.allowed(rule).contains(p));
            }
        }
    }

    /// Values that complete the board make the clauses of its problem hold,
    /// read as values of the variables: the problem of a board that has a
    /// completion is satisfiable.
    pub proof fn lemma_completion_models(&self, names: Seq<usize>, clauses: Seq<Seq<Literal>>, values: Seq<usize>)
        requires
            self.wf(),
            self.encoded(names, clauses),
            self.completes(values),
        ensures
            formula_holds(reading(names, values, self.size()), clauses),
            satisfiable(clauses, names.len()),
    {
        let m = reading(names, values, self.count as int);
        assert forall|c: int| 0 <= c < clauses.len() implies clause_holds(m, #[trigger] clauses[c]) by {
            let rule = choose|rule: Rule|
                self.due(rule) && states(names, #[trigger] clauses[c], #[trigger] self.allowed(rule));
            self.lemma_rule_met(values, rule);
            let p = choose|p: (usize, bool)|
                self.allowed(rule).contains(p) && #[trigger] fits(values, self.count as int, p);
            assert(self.allowed(rule).contains(p));
            let i = choose|i: int| 0 <= i < clauses[c].len() && #[trigger] says(names, clauses[c][i]) == p;
            assert(lits_in_range(clauses[c], names.len()));
            assert(clauses[c][i].var() < names.len());
            assert(lit_holds(m, clauses[c][i]));
        }
        assert(m.len() == names.len());
        assert(formula_holds(m, clauses));
    }

    /// A model of the board's problem makes true something that each rule's
    /// clause says.
    pub proof fn lemma_rule_said(
        &self,
        names: Seq<usize>,
        clauses: Seq<Seq<Literal>>,
        model: Seq<bool>,
        rule: Rule,
    ) -> (found: (int, (usize, bool)))
        requires
            self.encoded(names, clauses),
            model.len() == names.len(),
            formula_holds(model, clauses),
            self.due(rule),
        ensures
            0 <= found.0 < names.len(),
            self.allowed(rule).contains(found.1),
            names[found.0] == found.1.0,
            model[found.0] != found.1.1,
    {
        assert(earlier(key(rule), (5, 0, 0, 0)));
        let c = choose|c: int| 0 <= c < clauses.len() && states(names, #[trigger] clauses[c], self.allowed(rule));
        assert(clause_holds(model, clauses[c]));
        let k = choose|k: int| 0 <= k < clauses[c].len() && lit_holds(model, #[trigger] clauses[c][k]);
        assert(lits_in_range(clauses[c], names.len()));
        assert(self.allowed(rule).contains(says(names, clauses[c][k])));
        (clauses[c][k].var(), says(names, clauses[c][k]))
    }

    /// In a model of the board's problem, two true variables of one cell
    /// have one value.
    pub proof fn lemma_model_unique(
        &self,
        names: Seq<usize>,
        clauses: Seq<Seq<Literal>>,
        model: Seq<bool>,
        u: int,
        w: int,
    )
        requires
            self.wf(),
            self.encoded(names, clauses),
            model.len() == names.len(),
            formula_holds(model, clauses),
            0 <= u < names.len(),
            0 <= w < names.len(),
            model[u],
            model[w],
            cell_of(names[u], self.size()) == cell_of(names[w], self.size()),
        ensures
            value_of(names[u], self.size()) == value_of(names[w], self.size()),
    {
        let count = self.count as int;
        let cell = cell_of(names[u], count);
        let vu = value_of(names[u], count);
        let vw = value_of(names[w], count);
        if vu != vw {
            lemma_parts(names[u], count);
            lemma_parts(names[w], count);
            let rule = if vu > vw {
                Rule::Pair { cell, high: vu, low: vw }
            } else {
                Rule::Pair { cell, high: vw, low: vu }
            };
            assert(self.data@[names[u] as int] && self.data@[names[w] as int]);
            assert(self.due(rule));
            let found = self.lemma_rule_said(names, clauses, model, rule);
            if vu > vw {
                self.lemma_pair_place(found.1, cell, vu, vw);
            } else {
                self.lemma_pair_place(found.1, cell, vw, vu);
            }
            assert(found.1.0 == names[u] || found.1.0 == names[w]);
            assert(found.0 == u || found.0 == w);
        }
    }

    /// What the clause for two values of a cell says is that the cell has not
    /// the one, or that it has not the other.
    pub(crate) proof fn lemma_pair_place(&self, p: (usize, bool), cell: int, high: int, low: int)
        requires
            self.allowed(Rule::Pair { cell, high, low }).contains(p),
        ensures
            p.1,
            p.0 == cell * self.count + high || p.0 == cell * self.count + low,
    {
    }

    /// Among values read from a model of the board's problem, each cell has
    /// a value that is left in it.
    pub proof fn lemma_cells_filled(
        &self,
        names: Seq<usize>,
        clauses: Seq<Seq<Literal>>,
        model: Seq<bool>,
        values: Seq<usize>,
        row: int,
        col: int,
    )
        requires
            self.wf(),
            self.encoded(names, clauses),
            model.len() == names.len(),
            formula_holds(model, clauses),
            read_from(names, model, values, self.size()),
            0 <= row < self.size(),
            0 <= col < self.size(),
        ensures
            1 <= self.entry(values, row, col) <= self.size(),
            self.possible(row, col, self.entry(values, row, col) - 1),
    {
        let count = self.count as int;
        lemma_place(row, col, 0, count);
        let rule = Rule::Cell { cell: row * count + col };
        let found = self.lemma_rule_said(names, clauses, model, rule);
        let val = self.lemma_cell_place(found.1, row, col);
        assert(model[found.0]);
    }

    /// Among values read from a model of the board's problem, each row has
    /// each value.
    pub proof fn lemma_rows_hold(
        &self,
        names: Seq<usize>,
        clauses: Seq<Seq<Literal>>,
        model: Seq<bool>,
        values: Seq<usize>,
        row: int,
        val: int,
    )
        requires
            self.wf(),
            self.encoded(names, clauses),
            model.len() == names.len(),
            formula_holds(model, clauses),
            read_from(names, model, values, self.size()),
            0 <= row < self.size(),
            0 <= val < self.size(),
        ensures
            self.row_has(values, row, val),
    {
        let rule = Rule::Row { row, val };
        let found = self.lemma_rule_said(names, clauses, model, rule);
        let col = self.lemma_row_place(found.1, row, val);
        assert(model[found.0]);
        assert(self.entry(values, row, col) == val + 1);
    }

    /// Among values read from a model of the board's problem, each column
    /// has each value.
    pub proof fn lemma_columns_hold(
        &self,
        names: Seq<usize>,
        clauses: Seq<Seq<Literal>>,
        model: Seq<bool>,
        values: Seq<usize>,
        col: int,
        val: int,
    )
        requires
            self.wf(),
            self.encoded(names, clauses),
            model.len() == names.len(),
            formula_holds(model, clauses),
            read_from(names, model, values, self.size()),
            0 <= col < self.size(),
            0 <= val < self.size(),
        ensures
            self.column_has(values, col, val),
    {
        let rule = Rule::Column { col, val };
        let found = self.lemma_rule_said(names, clauses, model, rule);
        let row = self.lemma_column_place(found.1, col, val);
        assert(model[found.0]);
        assert(self.entry(values, row, col) == val + 1);
    }

    /// Among values read from a model of the board's problem, each block has
    /// each value.
    pub proof fn lemma_blocks_hold(
        &self,
        names: Seq<usize>,
        clauses: Seq<Seq<Literal>>,
        model: Seq<bool>,
        values: Seq<usize>,
        x: int,
        y: int,
        val: int,
    )
        requires
            self.wf(),
            self.encoded(names, clauses),
            model.len() == names.len(),
            formula_holds(model, clauses),
            read_from(names, model, values, self.size()),
            self.due(Rule::Block { x, y, val }),
        ensures
            self.block_has(values, x, y, val),
    {
        let rule = Rule::Block { x, y, val };
        let found = self.lemma_rule_said(names, clauses, model, rule);
        let (a, b) = self.lemma_block_place(found.1, x, y, val);
        assert(model[found.0]);
        self.lemma_block_shown(values, x, y, val, a, b);
    }

    /// A cell of a block that has a value shows that the block has it.
    pub(crate) proof fn lemma_block_shown(&self, values: Seq<usize>, x: int, y: int, val: int, a: int, b: int)
        requires
            0 <= a < self.rows,
            0 <= b < self.cols,
            values[(x * self.cols + b) * self.count + (y * self.rows + a)] == val + 1,
        ensures
            self.block_has(values, x, y, val),
    {
        assert(self.entry(values, x * self.cols + b, y * self.rows + a) == val + 1);
    }

    /// The values read from a model of the board's problem complete the
    /// board. They are read so: the cell of each true variable has the value
    /// of some true variable of that cell.
    pub proof fn lemma_model_completes(
        &self,
        names: Seq<usize>,
        clauses: Seq<Seq<Literal>>,
        model: Seq<bool>,
        values: Seq<usize>,
    )
        requires
            self.wf(),
            self.encoded(names, clauses),
            model.len() == names.len(),
            formula_holds(model, clauses),
            values.len() == self.size() * self.size(),
            read_upto(names, model, values, self.size(), names.len() as int),
        ensures
            self.completes(values),
    {
        let count = self.count as int;
        assert forall|u: int| 0 <= u < names.len() && #[trigger] model[u] implies values[cell_of(names[u], count)]
            == value_of(names[u], count) + 1 by {
            let w = choose|w: int|
                0 <= w < names.len() && #[trigger] model[w] && cell_of(names[w], count) == cell_of(names[u], count)
                    && values[cell_of(names[u], count)] == value_of(names[w], count) + 1;
            self.lemma_model_unique(names, clauses, model, u, w);
        }
        assert(read_from(names, model, values, count));
        assert forall|row: int, col: int| 0 <= row < self.count && 0 <= col < self.count implies 1
            <= #[trigger] self.entry(values, row, col) <= self.count && self.possible(
            row,
            col,
            self.entry(values, row, col) - 1,
        ) by {
            self.lemma_cells_filled(names, clauses, model, values, row, col);
        }
        assert forall|row: int, val: int| 0 <= row < self.count && 0 <= val < self.count implies #[trigger] self.row_has(
            values,
            row,
            val,
        ) by {
            self.lemma_rows_hold(names, clauses, model, values, row, val);
        }
        assert forall|col: int, val: int| 0 <= col < self.count && 0 <= val < self.count implies #[trigger] self.column_has(
            values,
            col,
            val,
        ) by {
            self.lemma_columns_hold(names, clauses, model, values, col, val);
        }
        assert forall|x: int, y: int, val: int|
            0 <= x < self.rows && 0 <= y < self.cols && 0 <= val < self.count implies #[trigger] self.block_has(
            values,
            x,
            y,
            val,
        ) by {
            self.lemma_blocks_hold(names, clauses, model, values, x, y, val);
        }
    }

    /// The problem of a board has a model exactly where the board has a
    /// completion: a completion read as values of the variables is a model,
    /// and the values of the cells that a model tells are a completion.
    pub proof fn lemma_problem_of_board(&self, names: Seq<usize>, clauses: Seq<Seq<Literal>>)
        requires
            self.wf(),
            self.encoded(names, clauses),
        ensures
            satisfiable(clauses, names.len()) <==> exists|values: Seq<usize>| self.completes(values),
            forall|model: Seq<bool>|
                model.len() == names.len() && #[trigger] formula_holds(model, clauses) ==> self.completes(
                    told(names, model, self.size()),
                ),
            forall|values: Seq<usize>| #[trigger]
                self.completes(values) ==> formula_holds(reading(names, values, self.size()), clauses),
    {
        let count = self.count as int;
        assert forall|model: Seq<bool>|
            model.len() == names.len() && #[trigger] formula_holds(model, clauses) implies self.completes(
            told(names, model, count),
        ) by {
            let values = told(names, model, count);
            assert forall|u: int| 0 <= u < names.len() && #[trigger] model[u] implies exists|w: int|
                0 <= w < names.len() && #[trigger] model[w] && cell_of(names[w], count) == cell_of(names[u], count)
                    && values[cell_of(names[u], count)] == value_of(names[w], count) + 1 by {
                let cell = cell_of(names[u], count);
                lemma_parts(names[u], count);
                let w = choose|w: int|
                    0 <= w < names.len() && #[trigger] model[w] && cell_of(names[w], count) == cell;
                lemma_parts(names[w], count);
                assert(values[cell] == (value_of(names[w], count) + 1) as usize);
            }
            assert(count * count >= 0) by (nonlinear_arith);
            self.lemma_model_completes(names, clauses, model, values);
        }
        assert forall|values: Seq<usize>| #[trigger] self.completes(values) implies formula_holds(
            reading(names, values, count),
            clauses,
        ) by {
            self.lemma_completion_models(names, clauses, values);
        }
        if satisfiable(clauses, names.len()) {
            let model = choose|m: Seq<bool>| m.len() == names.len() && #[trigger] formula_holds(m, clauses);
            assert(self.completes(told(names, model, count)));
        }
        if exists|values: Seq<usize>| self.completes(values) {
            let values = choose|values: Seq<usize>| self.completes(values);
            self.lemma_completion_models(names, clauses, values);
        }
    }

    /// The board as a problem, as `solve` hands it to the search: a problem
    /// whose clauses are the board's rules over the possibilities that are
    /// left. `None` where a cell, or a value in a row, a column or a block,
    /// has no place left: the board then has no completion.
    pub fn problem(&self) -> (made: Option<Problem<usize>>)
        requires
            self.wf(),
        ensures
            match made {
                Some(problem) => {
                    &&& problem.wf()
                    &&& self.encoded(problem.names(), problem.origin())
                    &&& (satisfiable(problem.origin(), problem.size()) <==> exists|values: Seq<usize>|
                        self.completes(values))
                },
                None => forall|values: Seq<usize>| !self.completes(values),
            },
    {
        let made = self.create_problem();
        proof {
            if made.is_some() {
                self.lemma_problem_of_board(made.unwrap().names(), made.unwrap().origin());
            }
        }
        made
    }
}

impl Board {
    /// Searches for values that complete the board. With the answer `Sat`
    /// come the values of the cells, row after row and counted from 1, and
    /// they complete the board; the answer `Unsat` says that nothing
    /// completes it; the answer `Unknown`, that the search has given up,
    /// which it never does on a small board.
    pub fn complete(&self) -> (found: (SolverResult, Option<Vec<usize>>))
        requires
            self.wf(),
        ensures
            found.0 == SolverResult::Sat <==> found.1.is_some(),
            found.1 matches Some(values) ==> self.completes(values@),
            found.0 == SolverResult::Unsat ==> forall|values: Seq<usize>| !self.completes(values),
            self.small() ==> found.0 != SolverResult::Unknown,
            self.small() ==> (found.0 == SolverResult::Sat <==> exists|values: Seq<usize>| self.completes(values)),
            self.blocked() ==> found.0 == SolverResult::Unsat,
    {
        let mut problem = match self.create_problem() {
            None => {
                return (SolverResult::Unsat, None);
            },
            Some(problem) => problem,
        };
        let ghost names = problem.names();
        let ghost clauses = problem.origin();
        proof {
            lemma_names_bound(self.data@, names);
            self.lemma_problem_of_board(names, clauses);
        }
        match problem.solve() {
            SolverResult::Unsat => {
                proof {
                    assert forall|values: Seq<usize>| !self.completes(values) by {
                        if self.completes(values) {
                            self.lemma_completion_models(names, clauses, values);
                        }
                    }
                }
                (SolverResult::Unsat, None)
            },
            SolverResult::Unknown => (SolverResult::Unknown, None),
            SolverResult::Sat => {
                let model = problem.model();
                let solution = self.read(&model, Ghost(problem.values()));
                proof {
                    self.lemma_model_completes(names, clauses, problem.values(), solution@);
                }
                (SolverResult::Sat, Some(solution))
            },
        }
    }

    /// Reads the values of the cells from the values of the variables: a
    /// variable that is true gives the cell of its name the value of its
    /// name.
    fn read(&self, model: &Vec<(&usize, bool)>, Ghost(truth): Ghost<Seq<bool>>) -> (solution: Vec<usize>)
        requires
            self.wf(),
            model@.len() == truth.len(),
            forall|u: int| 0 <= u < model@.len() ==> (#[trigger] model@[u]).1 == truth[u],
            forall|u: int| 0 <= u < model@.len() ==> *(#[trigger] model@[u]).0 < self.data@.len(),
        ensures
            solution@.len() == self.size() * self.size(),
            read_upto(
                Seq::new(model@.len(), |u: int| *model@[u].0),
                truth,
                solution@,
                self.size(),
                model@.len() as int,
            ),
    {
        let count = self.count;
        let ghost names = Seq::new(model@.len(), |u: int| *model@[u].0);
        proof {
            assert(count * count <= 1225 && count * count * count <= 42875) by (nonlinear_arith)
                requires
                    1 <= count <= 35,
            ;
        }
        let mut solution: Vec<usize> = vec![0usize; count * count];
        let mut v: usize = 0;
        while v < model.len()
            invariant
                v <= model@.len(),
                count == self.count,
                1 <= count <= 35,
                self.wf(),
                solution@.len() == count * count,
                model@.len() == truth.len(),
                names == Seq::new(model@.len(), |u: int| *model@[u].0),
                forall|u: int| 0 <= u < model@.len() ==> (#[trigger] model@[u]).1 == truth[u],
                forall|u: int| 0 <= u < model@.len() ==> *(#[trigger] model@[u]).0 < self.data@.len(),
                read_upto(names, truth, solution@, count as int, v as int),
            decreases model@.len() - v,
        {
            if model[v].1 {
                let name: usize = *model[v].0;
                proof {
                    lemma_parts(name, count as int);
                }
                let ghost before = solution@;
                solution[name / count] = name % count + 1;
                proof {
                    assert(names[v as int] == name);
                    assert(truth[v as int]);
                    assert forall|u: int| 0 <= u < v + 1 && #[trigger] truth[u] implies exists|w: int|
                        0 <= w < v + 1 && #[trigger] truth[w] && cell_of(names[w], count as int) == cell_of(
                            names[u],
                            count as int,
                        ) && solution@[cell_of(names[u], count as int)] == value_of(names[w], count as int) + 1 by {
                        assert(names[u] == *model@[u].0);
                        lemma_parts(names[u], count as int);
                        if cell_of(names[u], count as int) == cell_of(name, count as int) {
                            assert(truth[v as int] && cell_of(names[v as int], count as int) == cell_of(
                                names[u],
                                count as int,
                            ) && solution@[cell_of(names[u], count as int)] == value_of(
                                names[v as int],
                                count as int,
                            ) + 1);
                        } else {
                            assert(u < v);
                            let w = choose|w: int|
                                0 <= w < v && #[trigger] truth[w] && cell_of(names[w], count as int) == cell_of(
                                    names[u],
                                    count as int,
                                ) && before[cell_of(names[u], count as int)] == value_of(names[w], count as int)
                                    + 1;
                            assert(truth[w] && cell_of(names[w], count as int) == cell_of(names[u], count as int)
                                && solution@[cell_of(names[u], count as int)] == value_of(names[w], count as int)
                                + 1);
                        }
                    }
                }
            } else {
                proof {
                    assert(!truth[v as int]);
                }
            }
            v += 1;
        }
        solution
    }

    /// What it is for `text` to be the board's problem written down: the
    /// problem is made of the board's rules and is not settled to have no
    /// model; the text tells its open variables and the clauses that it
    /// keeps; these clauses follow from the rules, and with the values that
    /// are fixed they have the rules' models. Where the answer is settled,
    /// nothing is left to write but the problem line.
    pub open(crate) spec fn written(&self, problem: Problem<usize>, text: Seq<u8>) -> bool {
        &&& problem.wf()
        &&& self.encoded(problem.names(), problem.origin())
        &&& problem.solution() != Some(SolverResult::Unsat)
        &&& text == problem_text(problem)
        &&& (problem.solution().is_none() ==> problem.sound() && problem.complete())
        &&& (problem.solution() == Some(SolverResult::Sat) ==> problem.kept().len() == 0 && problem.spec_active()
            == 0)
    }

    /// The text of the board's problem in the DIMACS format. For a board
    /// that is blocked, because a cell or a value has no place left, and for
    /// one whose problem is settled to have no model, the text is that of a
    /// small problem without a model.
    pub fn print_dimacs(&self) -> (text: Vec<u8>)
        requires
            self.wf(),
        ensures
            self.blocked() ==> text@ == no_model_text(),
            text@ == no_model_text() ==> forall|values: Seq<usize>| !self.completes(values),
            text@ != no_model_text() ==> exists|problem: Problem<usize>| #[trigger]
                self.written(problem, text@),
    {
        let made = self.create_problem();
        let unsat = match &made {
            Some(problem) => match problem.solution {
                Some(SolverResult::Unsat) => true,
                _ => false,
            },
            None => true,
        };
        proof {
            if made.is_some() && unsat {
                let problem = made.unwrap();
                assert forall|values: Seq<usize>| !self.completes(values) by {
                    if self.completes(values) {
                        self.lemma_completion_models(problem.names(), problem.origin(), values);
                    }
                }
            }
        }
        match made {
            Some(problem) if !unsat => {
                let text = problem.print_dimacs();
                proof {
                    assert(text@ == problem_text(problem));
                    assert(self.written(problem, text@));
                }
                text
            },
            _ => {
                let mut text: Vec<u8> = Vec::new();
                text.push(112u8);
                text.push(32u8);
                text.push(99u8);
                text.push(110u8);
                text.push(102u8);
                text.push(32u8);
                text.push(50u8);
                text.push(32u8);
                text.push(49u8);
                text.push(10u8);
                text.push(49u8);
                text.push(32u8);
                text.push(48u8);
                text.push(10u8);
                text.push(45u8);
                text.push(49u8);
                text.push(32u8);
                text.push(48u8);
                text.push(10u8);
                text.push(48u8);
                text.push(10u8);
                proof {
                    assert(text@ =~= no_model_text());
                }
                text
            },
        }
    }

    /// Completes the board. Returns, cell after cell and row after row, the
    /// value of each cell, counted from 1, and these values complete the
    /// board. A small board that has a completion is completed: on it `None`
    /// says that nothing completes the board. On a larger board `None` may
    /// also say that the search has given up; `complete` tells the two apart.
    pub fn solve(&self) -> (solution: Option<Vec<usize>>)
        requires
            self.wf(),
        ensures
            solution matches Some(values) ==> self.completes(values@),
            self.small() ==> (solution is Some <==> exists|values: Seq<usize>| self.completes(values)),
            self.blocked() ==> solution is None,
    {
        self.complete().1
    }
}

/// A cell's number tells its row and its column.
pub proof fn lemma_cell_split(cell: int, count: int)
    requires
        0 <= cell < count * count,
        count >= 1,
    ensures
        0 <= cell / count < count,
        0 <= cell % count < count,
        cell == (cell / count) * count + cell % count,
{
    vstd::arithmetic::div_mod::lemma_fundamental_div_mod(cell, count);
    vstd::arithmetic::div_mod::lemma_mod_pos_bound(cell, count);
    vstd::arithmetic::div_mod::lemma_div_pos_is_pos(cell, count);
    let q = cell / count;
    if q >= count {
        assert(count * q >= count * count) by (nonlinear_arith)
            requires
                q >= count,
                count >= 1,
        ;
    }
    assert(count * q == q * count) by (nonlinear_arith);
}

/// The text of a problem as the search has it.
pub open spec fn problem_text(problem: Problem<usize>) -> Seq<u8> {
    header_text(problem.spec_active() as nat, problem.kept().len()) + clauses_text(problem.kept())
}

/// The text that is written for a board without a problem: a problem line,
/// the clauses `1` and `-1`, and a line that holds a `0`.
pub open spec fn no_model_text() -> Seq<u8> {
    seq![
        112u8, 32u8, 99u8, 110u8, 102u8, 32u8, 50u8, 32u8, 49u8, 10u8, 49u8, 32u8, 48u8, 10u8, 45u8, 49u8, 32u8,
        48u8, 10u8, 48u8, 10u8,
    ]
}

/// What says that not both of two possibilities hold.
pub open spec fn deny(base: int, high: int, low: int) -> Set<(usize, bool)> {
    Set::new(|p: (usize, bool)| p.1 && (p.0 == base + high || p.0 == base + low))
}

} // verus!
