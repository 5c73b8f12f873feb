use vstd::prelude::*;

use super::valuation::lits_in_range;
use super::{Clause, Literal, Problem};
use crate::parser::dimacs::{
    decimal, digits_end, is_digit, number_read, DIGIT_ZERO, LINE_FEED, MINUS, SPACE,
};
use crate::parser::errors::Error;

verus! {

/// The decimal digits that write a number, the first digit first.
pub open spec fn digits_of(n: nat) -> Seq<u8>
    decreases n,
{
    if n < 10 {
        seq![(DIGIT_ZERO + n) as u8]
    } else {
        digits_of(n / 10).push((DIGIT_ZERO + n % 10) as u8)
    }
}

/// The digits that write a number are digits, at least one, and read as
/// decimal digits they give the number back.
pub proof fn lemma_digits_read(n: nat)
    ensures
        digits_of(n).len() >= 1,
        forall|i: int| 0 <= i < digits_of(n).len() ==> is_digit(#[trigger] digits_of(n)[i]),
        decimal(digits_of(n)) == n,
    decreases n,
{
    if n < 10 {
        let one = digits_of(n);
        assert(one.drop_last() =~= Seq::<u8>::empty());
        assert(decimal(one.drop_last()) == 0);
    } else {
        lemma_digits_read(n / 10);
        let all = digits_of(n);
        assert(all.drop_last() =~= digits_of(n / 10));
    }
}

/// A run of digits ends where the digits end.
pub proof fn lemma_digits_run(text: Seq<u8>, from: int, to: int)
    requires
        0 <= from <= to <= text.len(),
        forall|i: int| from <= i < to ==> is_digit(#[trigger] text[i]),
        to == text.len() || !is_digit(text[to]),
    ensures
        digits_end(text, from) == to,
    decreases to - from,
{
    if from < to {
        assert(is_digit(text[from]));
        lemma_digits_run(text, from + 1, to);
    }
}

/// A number that was written is read again: where the digits of a number
/// stand in a text, before its end or a byte that is no digit, reading a
/// number there gives the number and the place behind its digits.
pub proof fn lemma_number_round_trip(n: usize, before: Seq<u8>, behind: Seq<u8>)
    requires
        behind.len() == 0 || !is_digit(behind[0]),
        before.len() + digits_of(n as nat).len() <= usize::MAX,
    ensures
        number_read(before + digits_of(n as nat) + behind, before.len() as int) == Ok::<(usize, usize), Error>(
            (n, (before.len() + digits_of(n as nat).len()) as usize),
        ),
{
    let digits = digits_of(n as nat);
    let text = before + digits + behind;
    let from = before.len() as int;
    let to = from + digits.len();
    lemma_digits_read(n as nat);
    assert forall|i: int| from <= i < to implies is_digit(#[trigger] text[i]) by {
        assert(text[i] == digits[i - from]);
    }
    if to < text.len() {
        assert(text[to] == behind[0]);
    }
    lemma_digits_run(text, from, to);
    assert(text.subrange(from, to) =~= digits);
}

/// How a literal is written: the number of its variable, counted from 1,
/// behind a minus sign where the literal is negated, and a space.
pub open spec fn literal_text(lit: Literal) -> Seq<u8> {
    (if lit.spec_negated() {
        seq![MINUS]
    } else {
        Seq::<u8>::empty()
    }) + digits_of((lit.var() + 1) as nat).push(SPACE)
}

/// How the literals of a clause are written, one after the other.
pub open spec fn literals_text(lits: Seq<Literal>) -> Seq<u8>
    decreases lits.len(),
{
    if lits.len() == 0 {
        Seq::<u8>::empty()
    } else {
        literals_text(lits.drop_last()) + literal_text(lits.last())
    }
}

/// How a clause is written: its literals, a `0` and a line feed.
pub open spec fn clause_text(lits: Seq<Literal>) -> Seq<u8> {
    literals_text(lits).push(DIGIT_ZERO).push(LINE_FEED)
}

/// How clauses are written, one after the other.
pub open spec fn clauses_text(clauses: Seq<Clause>) -> Seq<u8>
    decreases clauses.len(),
{
    if clauses.len() == 0 {
        Seq::<u8>::empty()
    } else {
        clauses_text(clauses.drop_last()) + clause_text(clauses.last().lits())
    }
}

/// The problem line for so many variables and clauses.
pub open spec fn header_text(variables: nat, clauses: nat) -> Seq<u8> {
    seq![112u8, SPACE, 99u8, 110u8, 102u8, SPACE] + digits_of(variables).push(SPACE) + digits_of(clauses).push(
        LINE_FEED,
    )
}

/// Writes a number in decimal digits behind what `out` holds.
pub fn write_u64(out: &mut Vec<u8>, n: u64)
    ensures
        final(out)@ == old(out)@ + digits_of(n as nat),
    decreases n,
{
    if n >= 10 {
        write_u64(out, n / 10);
    }
    let digit: u8 = (n % 10) as u8;
    out.push(DIGIT_ZERO + digit);
    proof {
        assert(final(out)@ =~= old(out)@ + digits_of(n as nat));
    }
}

/// Writes a number in decimal digits behind what `out` holds.
pub fn write_usize(out: &mut Vec<u8>, n: usize)
    ensures
        final(out)@ == old(out)@ + digits_of(n as nat),
{
    write_u64(out, n as u64)
}

/// Writes a literal behind what `out` holds.
pub fn write_literal(out: &mut Vec<u8>, lit: Literal)
    ensures
        final(out)@ == old(out)@ + literal_text(lit),
{
    if lit.negated() {
        out.push(MINUS);
    }
    write_usize(out, lit.id().to_usize() + 1);
    out.push(SPACE);
    proof {
        assert(final(out)@ =~= old(out)@ + literal_text(lit));
    }
}

/// Writes a clause behind what `out` holds.
pub fn write_clause(out: &mut Vec<u8>, clause: &Clause)
    ensures
        final(out)@ == old(out)@ + clause_text(clause.lits()),
{
    let lits = clause.literals();
    let mut i: usize = 0;
    proof {
        assert(lits@.take(0) =~= Seq::<Literal>::empty());
    }
    while i < lits.len()
        invariant
            i <= lits@.len(),
            lits@ == clause.lits(),
            out@ == old(out)@ + literals_text(lits@.take(i as int)),
        decreases lits@.len() - i,
    {
        let ghost before = out@;
        write_literal(out, lits[i]);
        proof {
            let more = lits@.take(i + 1);
            assert(more.drop_last() =~= lits@.take(i as int));
            assert(more.last() == lits@[i as int]);
            assert(out@ =~= old(out)@ + literals_text(more));
        }
        i += 1;
    }
    out.push(DIGIT_ZERO);
    out.push(LINE_FEED);
    proof {
        assert(lits@.take(lits@.len() as int) =~= lits@);
        assert(out@ =~= old(out)@ + clause_text(clause.lits()));
    }
}

/// How a literal is written by the name of its variable: the name, behind
/// the sign `¬` where the literal is negated.
pub open spec fn named_text(negated: bool, name: Seq<u8>) -> Seq<u8> {
    (if negated {
        seq![194u8, 172u8]
    } else {
        Seq::<u8>::empty()
    }) + name
}

/// How the literals of a clause are written by the names of their variables,
/// with a space between each two.
pub open spec fn clause_named_text(lits: Seq<Literal>, names: Seq<Vec<u8>>) -> Seq<u8>
    decreases lits.len(),
{
    if lits.len() == 0 {
        Seq::<u8>::empty()
    } else if lits.len() == 1 {
        named_text(lits[0].spec_negated(), names[lits[0].var()]@)
    } else {
        clause_named_text(lits.drop_last(), names).push(SPACE) + named_text(
            lits.last().spec_negated(),
            names[lits.last().var()]@,
        )
    }
}

/// How the literals of a clause are listed by the names of their variables:
/// before each name a minus sign where the literal is negated and a space
/// where it is not, and behind each a space.
pub open spec fn clause_listed_text(lits: Seq<Literal>, names: Seq<Vec<u8>>) -> Seq<u8>
    decreases lits.len(),
{
    if lits.len() == 0 {
        Seq::<u8>::empty()
    } else {
        clause_listed_text(lits.drop_last(), names).push(
            if lits.last().spec_negated() {
                MINUS
            } else {
                SPACE
            },
        ) + names[lits.last().var()]@.push(SPACE)
    }
}

/// The first clauses, each written by names on a line.
pub open spec fn clauses_named_text(clauses: Seq<Clause>, names: Seq<Vec<u8>>) -> Seq<u8>
    decreases clauses.len(),
{
    if clauses.len() == 0 {
        Seq::<u8>::empty()
    } else {
        clauses_named_text(clauses.drop_last(), names) + clause_named_text(clauses.last().lits(), names).push(
            LINE_FEED,
        )
    }
}

/// The first clauses, each listed by names on a line.
pub open spec fn clauses_listed_text(clauses: Seq<Clause>, names: Seq<Vec<u8>>) -> Seq<u8>
    decreases clauses.len(),
{
    if clauses.len() == 0 {
        Seq::<u8>::empty()
    } else {
        clauses_listed_text(clauses.drop_last(), names) + clause_listed_text(clauses.last().lits(), names).push(
            LINE_FEED,
        )
    }
}

/// How a value is written: `true` or `false`.
pub open spec fn value_text(value: bool) -> Seq<u8> {
    if value {
        seq![116u8, 114u8, 117u8, 101u8]
    } else {
        seq![102u8, 97u8, 108u8, 115u8, 101u8]
    }
}

/// The values of the first variables, each on a line behind the indent and
/// the name of its variable: `  x: true`.
pub open spec fn model_text(values: Seq<bool>, names: Seq<Vec<u8>>, indent: Seq<u8>, upto: int) -> Seq<u8>
    decreases upto,
{
    if upto <= 0 {
        Seq::<u8>::empty()
    } else {
        model_text(values, names, indent, upto - 1) + indent + names[upto - 1]@.push(58u8).push(SPACE)
            + value_text(values[upto - 1]).push(LINE_FEED)
    }
}

/// The line that stands above the clauses: `Problem of 3 clauses:`.
pub open spec fn title_text(clauses: nat) -> Seq<u8> {
    seq![80u8, 114u8, 111u8, 98u8, 108u8, 101u8, 109u8, 32u8, 111u8, 102u8, 32u8] + digits_of(clauses) + seq![
        32u8, 99u8, 108u8, 97u8, 117u8, 115u8, 101u8, 115u8, 58u8, 10u8,
    ]
}

/// Writes the bytes behind what `out` holds.
pub fn write_bytes(out: &mut Vec<u8>, bytes: &[u8])
    ensures
        final(out)@ == old(out)@ + bytes@,
{
    let mut i: usize = 0;
    proof {
        assert(bytes@.take(0) =~= Seq::<u8>::empty());
        assert(out@ =~= old(out)@ + bytes@.take(0));
    }
    while i < bytes.len()
        invariant
            i <= bytes@.len(),
            out@ == old(out)@ + bytes@.take(i as int),
        decreases bytes@.len() - i,
    {
        out.push(bytes[i]);
        proof {
            assert(bytes@.take(i + 1) =~= bytes@.take(i as int).push(bytes@[i as int]));
            assert(out@ =~= old(out)@ + bytes@.take(i + 1));
        }
        i += 1;
    }
    proof {
        assert(bytes@.take(bytes@.len() as int) =~= bytes@);
    }
}

impl Literal {
    /// The literal written by the name of its variable: the name, behind
    /// the sign `¬` where the literal is negated.
    pub fn print(&self, name: &[u8]) -> (text: Vec<u8>)
        ensures
            text@ == named_text(self.spec_negated(), name@),
    {
        let mut out: Vec<u8> = Vec::new();
        if self.negated() {
            out.push(194u8);
            out.push(172u8);
        }
        write_bytes(&mut out, name);
        proof {
            assert(out@ =~= named_text(self.spec_negated(), name@));
        }
        out
    }
}

impl Clause {
    /// Every literal is over a variable that has one of `count` names.
    pub open(crate) spec fn named(&self, count: nat) -> bool {
        lits_in_range(self.lits(), count)
    }

    /// Whether every literal is over a variable that has one of `count`
    /// names.
    pub fn is_named(&self, count: usize) -> (named: bool)
        ensures
            named == self.named(count as nat),
    {
        let lits = self.literals();
        let mut i: usize = 0;
        while i < lits.len()
            invariant
                i <= lits@.len(),
                lits@ == self.lits(),
                forall|k: int| 0 <= k < i ==> (#[trigger] lits@[k]).var() < count,
            decreases lits@.len() - i,
        {
            if lits[i].id().to_usize() >= count {
                return false;
            }
            i += 1;
        }
        true
    }

    /// The clause written by the names of its variables: its literals, with
    /// a space between each two.
    pub fn print(&self, names: &Vec<Vec<u8>>) -> (text: Vec<u8>)
        requires
            self.named(names@.len()),
        ensures
            text@ == clause_named_text(self.lits(), names@),
    {
        let lits = self.literals();
        let mut out: Vec<u8> = Vec::new();
        let mut i: usize = 0;
        proof {
            assert(lits@.take(0) =~= Seq::<Literal>::empty());
        }
        while i < lits.len()
            invariant
                i <= lits@.len(),
                lits@ == self.lits(),
                lits_in_range(lits@, names@.len()),
                out@ == clause_named_text(lits@.take(i as int), names@),
            decreases lits@.len() - i,
        {
            if i != 0 {
                out.push(SPACE);
            }
            let lit = lits[i];
            if lit.negated() {
                out.push(194u8);
                out.push(172u8);
            }
            write_bytes(&mut out, names[lit.id().to_usize()].as_slice());
            proof {
                let more = lits@.take(i + 1);
                assert(more.drop_last() =~= lits@.take(i as int));
                assert(more.last() == lits@[i as int]);
                assert(more[0] == lits@[0]);
                assert(out@ =~= clause_named_text(more, names@));
            }
            i += 1;
        }
        proof {
            assert(lits@.take(lits@.len() as int) =~= lits@);
        }
        out
    }

    /// The clause listed by the names of its variables: before each name a
    /// minus sign where the literal is negated and a space where it is not,
    /// and behind each a space.
    pub fn list(&self, names: &Vec<Vec<u8>>) -> (text: Vec<u8>)
        requires
            self.named(names@.len()),
        ensures
            text@ == clause_listed_text(self.lits(), names@),
    {
        let lits = self.literals();
        let mut out: Vec<u8> = Vec::new();
        let mut i: usize = 0;
        proof {
            assert(lits@.take(0) =~= Seq::<Literal>::empty());
        }
        while i < lits.len()
            invariant
                i <= lits@.len(),
                lits@ == self.lits(),
                lits_in_range(lits@, names@.len()),
                out@ == clause_listed_text(lits@.take(i as int), names@),
            decreases lits@.len() - i,
        {
            let lit = lits[i];
            if lit.negated() {
                out.push(MINUS);
            } else {
                out.push(SPACE);
            }
            write_bytes(&mut out, names[lit.id().to_usize()].as_slice());
            out.push(SPACE);
            proof {
                let more = lits@.take(i + 1);
                assert(more.drop_last() =~= lits@.take(i as int));
                assert(more.last() == lits@[i as int]);
                assert(out@ =~= clause_listed_text(more, names@));
            }
            i += 1;
        }
        proof {
            assert(lits@.take(lits@.len() as int) =~= lits@);
        }
        out
    }
}

impl<T> Problem<T> {
    /// Every clause that is kept is over variables that have one of `count`
    /// names.
    pub open(crate) spec fn named(&self, count: nat) -> bool {
        forall|c: int| 0 <= c < self.kept().len() ==> (#[trigger] self.kept()[c]).named(count)
    }

    /// Whether there are as many names as variables, and every clause that
    /// is kept is over variables that have a name.
    pub fn is_named(&self, count: usize) -> (named: bool)
        ensures
            named == (count == self.size() && self.named(count as nat)),
    {
        if count != self.variables.len() {
            return false;
        }
        let mut c: usize = 0;
        while c < self.clauses.len()
            invariant
                c <= self.clauses@.len(),
                forall|k: int| 0 <= k < c ==> (#[trigger] self.clauses@[k]).named(count as nat),
            decreases self.clauses@.len() - c,
        {
            if !self.clauses[c].is_named(count) {
                proof {
                    assert(!self.kept()[c as int].named(count as nat));
                }
                return false;
            }
            c += 1;
        }
        true
    }

    /// The clauses that are kept, written by the names of their variables,
    /// each on a line, below a line that tells how many there are. The names
    /// are given as texts, one for each variable.
    pub fn print(&self, names: &Vec<Vec<u8>>) -> (text: Vec<u8>)
        requires
            self.named(names@.len()),
        ensures
            text@ == title_text(self.kept().len()) + clauses_named_text(self.kept(), names@),
    {
        let mut out: Vec<u8> = Vec::new();
        let head: [u8; 11] = [80u8, 114u8, 111u8, 98u8, 108u8, 101u8, 109u8, 32u8, 111u8, 102u8, 32u8];
        let tail: [u8; 10] = [32u8, 99u8, 108u8, 97u8, 117u8, 115u8, 101u8, 115u8, 58u8, 10u8];
        write_bytes(&mut out, head.as_slice());
        write_usize(&mut out, self.clauses.len());
        write_bytes(&mut out, tail.as_slice());
        let ghost title = out@;
        proof {
            assert(title =~= title_text(self.kept().len()));
            assert(self.clauses@.take(0) =~= Seq::<Clause>::empty());
        }
        let mut c: usize = 0;
        while c < self.clauses.len()
            invariant
                c <= self.clauses@.len(),
                self.named(names@.len()),
                out@ == title + clauses_named_text(self.clauses@.take(c as int), names@),
            decreases self.clauses@.len() - c,
        {
            proof {
                assert(self.kept()[c as int].named(names@.len()));
            }
            let line = self.clauses[c].print(names);
            write_bytes(&mut out, line.as_slice());
            out.push(LINE_FEED);
            proof {
                let more = self.clauses@.take(c + 1);
                assert(more.drop_last() =~= self.clauses@.take(c as int));
                assert(more.last() == self.clauses@[c as int]);
                assert(out@ =~= title + clauses_named_text(more, names@));
            }
            c += 1;
        }
        proof {
            assert(self.clauses@.take(self.clauses@.len() as int) =~= self.clauses@);
        }
        out
    }

    /// The clauses that are kept, listed by the names of their variables,
    /// each on a line. The names are given as texts, one for each variable.
    pub fn print_clauses(&self, names: &Vec<Vec<u8>>) -> (text: Vec<u8>)
        requires
            self.named(names@.len()),
        ensures
            text@ == clauses_listed_text(self.kept(), names@),
    {
        let mut out: Vec<u8> = Vec::new();
        proof {
            assert(self.clauses@.take(0) =~= Seq::<Clause>::empty());
        }
        let mut c: usize = 0;
        while c < self.clauses.len()
            invariant
                c <= self.clauses@.len(),
                self.named(names@.len()),
                out@ == clauses_listed_text(self.clauses@.take(c as int), names@),
            decreases self.clauses@.len() - c,
        {
            proof {
                assert(self.kept()[c as int].named(names@.len()));
            }
            let line = self.clauses[c].list(names);
            write_bytes(&mut out, line.as_slice());
            out.push(LINE_FEED);
            proof {
                let more = self.clauses@.take(c + 1);
                assert(more.drop_last() =~= self.clauses@.take(c as int));
                assert(more.last() == self.clauses@[c as int]);
                assert(out@ =~= clauses_listed_text(more, names@));
            }
            c += 1;
        }
        proof {
            assert(self.clauses@.take(self.clauses@.len() as int) =~= self.clauses@);
        }
        out
    }

    /// The values that are stored for the variables, each on a line behind
    /// the indent and the name of its variable. The names are given as texts,
    /// one for each variable.
    pub fn print_model(&self, names: &Vec<Vec<u8>>, indent: &[u8]) -> (text: Vec<u8>)
        requires
            names@.len() == self.size(),
        ensures
            text@ == model_text(self.values(), names@, indent@, self.size() as int),
    {
        let mut out: Vec<u8> = Vec::new();
        let yes: [u8; 4] = [116u8, 114u8, 117u8, 101u8];
        let no: [u8; 5] = [102u8, 97u8, 108u8, 115u8, 101u8];
        let mut v: usize = 0;
        while v < self.variables.len()
            invariant
                v <= self.variables@.len(),
                names@.len() == self.variables@.len(),
                yes@ == seq![116u8, 114u8, 117u8, 101u8],
                no@ == seq![102u8, 97u8, 108u8, 115u8, 101u8],
                out@ == model_text(self.values(), names@, indent@, v as int),
            decreases self.variables@.len() - v,
        {
            write_bytes(&mut out, indent);
            write_bytes(&mut out, names[v].as_slice());
            out.push(58u8);
            out.push(SPACE);
            if self.variables[v].value {
                write_bytes(&mut out, yes.as_slice());
            } else {
                write_bytes(&mut out, no.as_slice());
            }
            out.push(LINE_FEED);
            proof {
                assert(self.values()[v as int] == self.variables@[v as int].value);
                assert(out@ =~= model_text(self.values(), names@, indent@, v + 1));
            }
            v += 1;
        }
        out
    }

    /// The text of the problem in the DIMACS format, as the search has it:
    /// the problem line with the number of variables that are not assigned
    /// for good and the number of clauses that are kept, and the clauses,
    /// each on a line. The variables are written by their numbers, counted
    /// from 1, not by their names.
    pub fn print_dimacs(&self) -> (text: Vec<u8>)
        ensures
            text@ == header_text(self.spec_active() as nat, self.kept().len()) + clauses_text(self.kept()),
    {
        let mut out: Vec<u8> = Vec::new();
        out.push(112u8);
        out.push(SPACE);
        out.push(99u8);
        out.push(110u8);
        out.push(102u8);
        out.push(SPACE);
        write_usize(&mut out, self.active_variables);
        out.push(SPACE);
        write_usize(&mut out, self.clauses.len());
        out.push(LINE_FEED);
        let ghost header = out@;
        proof {
            assert(header =~= header_text(self.spec_active() as nat, self.kept().len()));
            assert(self.clauses@.take(0) =~= Seq::<Clause>::empty());
        }
        let mut c: usize = 0;
        while c < self.clauses.len()
            invariant
                c <= self.clauses@.len(),
                out@ == header + clauses_text(self.clauses@.take(c as int)),
            decreases self.clauses@.len() - c,
        {
            write_clause(&mut out, &self.clauses[c]);
            proof {
                let more = self.clauses@.take(c + 1);
                assert(more.drop_last() =~= self.clauses@.take(c as int));
                assert(more.last() == self.clauses@[c as int]);
                assert(out@ =~= header + clauses_text(more));
            }
            c += 1;
        }
        proof {
            assert(self.clauses@.take(self.clauses@.len() as int) =~= self.clauses@);
        }
        out
    }
}

} // verus!
