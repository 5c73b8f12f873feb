use vstd::prelude::*;

use super::errors::Error;
use crate::cnf::literal::lemma_literal_parts_decide;
use crate::cnf::problembuilder::{indexed, lemma_numbered, number_of, with_name};
use crate::cnf::{Literal, Problem, ProblemBuilder, VariableId};

verus! {

pub const SPACE: u8 = 32;

pub const LINE_FEED: u8 = 10;

pub const MINUS: u8 = 45;

pub const DIGIT_ZERO: u8 = 48;

pub const LETTER_C: u8 = 99;

pub const LETTER_F: u8 = 102;

pub const LETTER_N: u8 = 110;

pub const LETTER_P: u8 = 112;

/// Whether the byte is white space: a space, or one of the control
/// characters from the tabulator to the carriage return.
pub open spec fn spec_is_ws(byte: u8) -> bool {
    byte == SPACE || (9 <= byte <= 13)
}

#[verifier::when_used_as_spec(spec_is_ws)]
pub fn is_ws(byte: u8) -> (ws: bool)
    ensures
        ws == spec_is_ws(byte),
{
    let x = byte.wrapping_sub(9);
    byte == SPACE || x < 5
}

/// Whether the byte is a decimal digit.
pub open spec fn is_digit(byte: u8) -> bool {
    48 <= byte <= 57
}

/// The first place from `pos` on that holds no white space; the length of
/// the text where there is none.
pub open spec fn after_ws(text: Seq<u8>, pos: int) -> int
    decreases text.len() - pos,
{
    if 0 <= pos < text.len() && spec_is_ws(text[pos]) {
        after_ws(text, pos + 1)
    } else {
        pos
    }
}

/// The first place from `pos` on that holds a line feed; the length of the
/// text where there is none.
pub open spec fn line_end(text: Seq<u8>, pos: int) -> int
    decreases text.len() - pos,
{
    if 0 <= pos < text.len() && text[pos] != LINE_FEED {
        line_end(text, pos + 1)
    } else {
        pos
    }
}

/// The first place from `pos` on that begins neither white space nor a
/// comment. A comment begins with a `c` and ends before the next line feed.
pub open spec fn after_comments(text: Seq<u8>, pos: int) -> int
    decreases text.len() - pos,
{
    let at = after_ws(text, pos);
    if 0 <= pos <= at < text.len() && text[at] == LETTER_C && at < line_end(text, at + 1)
        <= text.len() {
        after_comments(text, line_end(text, at + 1))
    } else {
        at
    }
}

/// The first place from `pos` on that holds no digit.
pub open spec fn digits_end(text: Seq<u8>, pos: int) -> int
    decreases text.len() - pos,
{
    if 0 <= pos < text.len() && is_digit(text[pos]) {
        digits_end(text, pos + 1)
    } else {
        pos
    }
}

/// The number that the decimal digits write.
pub open spec fn decimal(digits: Seq<u8>) -> nat
    decreases digits.len(),
{
    if digits.len() == 0 {
        0
    } else {
        decimal(digits.drop_last()) * 10 + (digits.last() - DIGIT_ZERO) as nat
    }
}

/// Where white space ends, there is the text's end or another byte.
pub proof fn lemma_after_ws(text: Seq<u8>, pos: int)
    requires
        0 <= pos <= text.len(),
    ensures
        pos <= after_ws(text, pos) <= text.len(),
        after_ws(text, pos) < text.len() ==> !spec_is_ws(text[after_ws(text, pos)]),
        forall|i: int| pos <= i < after_ws(text, pos) ==> spec_is_ws(#[trigger] text[i]),
    decreases text.len() - pos,
{
    if pos < text.len() && spec_is_ws(text[pos]) {
        lemma_after_ws(text, pos + 1);
    }
}

/// Where a line ends, there is the text's end or a line feed.
pub proof fn lemma_line_end(text: Seq<u8>, pos: int)
    requires
        0 <= pos <= text.len(),
    ensures
        pos <= line_end(text, pos) <= text.len(),
        line_end(text, pos) < text.len() ==> text[line_end(text, pos)] == LINE_FEED,
        forall|i: int| pos <= i < line_end(text, pos) ==> #[trigger] text[i] != LINE_FEED,
    decreases text.len() - pos,
{
    if pos < text.len() && text[pos] != LINE_FEED {
        lemma_line_end(text, pos + 1);
    }
}

/// Where digits end, there is the text's end or a byte that is no digit.
pub proof fn lemma_digits_end(text: Seq<u8>, pos: int)
    requires
        0 <= pos <= text.len(),
    ensures
        pos <= digits_end(text, pos) <= text.len(),
        digits_end(text, pos) < text.len() ==> !is_digit(text[digits_end(text, pos)]),
        forall|i: int| pos <= i < digits_end(text, pos) ==> is_digit(#[trigger] text[i]),
    decreases text.len() - pos,
{
    if pos < text.len() && is_digit(text[pos]) {
        lemma_digits_end(text, pos + 1);
    }
}

/// Comments and white space end within the text, before a byte that begins
/// neither.
pub proof fn lemma_after_comments(text: Seq<u8>, pos: int)
    requires
        0 <= pos <= text.len(),
    ensures
        pos <= after_comments(text, pos) <= text.len(),
        after_comments(text, pos) < text.len() ==> !spec_is_ws(text[after_comments(text, pos)])
            && text[after_comments(text, pos)] != LETTER_C,
    decreases text.len() - pos,
{
    let at = after_ws(text, pos);
    lemma_after_ws(text, pos);
    if at < text.len() && text[at] == LETTER_C {
        lemma_line_end(text, at + 1);
        lemma_after_comments(text, line_end(text, at + 1));
    }
}

/// A comment is left behind by going to the end of its line.
pub proof fn lemma_comment_skipped(text: Seq<u8>, pos: int)
    requires
        0 <= pos <= text.len(),
        after_ws(text, pos) < text.len(),
        text[after_ws(text, pos)] == LETTER_C,
    ensures
        after_comments(text, pos) == after_comments(text, line_end(text, after_ws(text, pos) + 1)),
{
    lemma_after_ws(text, pos);
    lemma_line_end(text, after_ws(text, pos) + 1);
}

/// Where no comment begins behind the white space, nothing more is skipped.
pub proof fn lemma_no_comment(text: Seq<u8>, pos: int)
    requires
        0 <= pos <= text.len(),
        after_ws(text, pos) == text.len() || text[after_ws(text, pos)] != LETTER_C,
    ensures
        after_comments(text, pos) == after_ws(text, pos),
{
    lemma_after_ws(text, pos);
}

/// Goes on to the first byte that is no white space.
pub fn skip_ws(input: &[u8], pos: usize) -> (next: usize)
    requires
        pos <= input@.len(),
    ensures
        next == after_ws(input@, pos as int),
        pos <= next <= input@.len(),
{
    let mut next = pos;
    proof {
        lemma_after_ws(input@, pos as int);
    }
    while next < input.len() && is_ws(input[next])
        invariant
            pos <= next <= input@.len(),
            after_ws(input@, next as int) == after_ws(input@, pos as int),
        decreases input@.len() - next,
    {
        next += 1;
    }
    next
}

/// Goes on to the end of the line: to the next line feed, or to the end of
/// the text.
pub fn skip_past_eol(input: &[u8], pos: usize) -> (next: usize)
    requires
        pos <= input@.len(),
    ensures
        next == line_end(input@, pos as int),
        pos <= next <= input@.len(),
{
    let mut next = pos;
    proof {
        lemma_line_end(input@, pos as int);
    }
    while next < input.len() && input[next] != LINE_FEED
        invariant
            pos <= next <= input@.len(),
            line_end(input@, next as int) == line_end(input@, pos as int),
        decreases input@.len() - next,
    {
        next += 1;
    }
    next
}

/// Goes on past white space and comments.
pub fn skip_comments(input: &[u8], pos: usize) -> (next: usize)
    requires
        pos <= input@.len(),
    ensures
        next == after_comments(input@, pos as int),
        pos <= next <= input@.len(),
{
    let mut at = pos;
    proof {
        lemma_after_comments(input@, pos as int);
    }
    loop
        invariant
            pos <= at <= input@.len(),
            after_comments(input@, at as int) == after_comments(input@, pos as int),
        ensures
            at == after_comments(input@, pos as int),
            pos <= at <= input@.len(),
        decreases input@.len() - at,
    {
        let ghost from = at;
        at = skip_ws(input, at);
        if at >= input.len() {
            proof {
                lemma_no_comment(input@, from as int);
            }
            return at;
        }
        if input[at] == LETTER_C {
            proof {
                lemma_comment_skipped(input@, from as int);
                lemma_line_end(input@, at + 1);
            }
            at = skip_past_eol(input, at + 1);
        } else {
            proof {
                lemma_no_comment(input@, from as int);
            }
            return at;
        }
    }
}

/// Appending a digit multiplies by ten and adds the digit.
pub proof fn lemma_decimal_push(digits: Seq<u8>, digit: u8)
    ensures
        decimal(digits.push(digit)) == decimal(digits) * 10 + (digit - DIGIT_ZERO) as nat,
{
    assert(digits.push(digit).drop_last() =~= digits);
}

/// A number of more digits is no smaller, once it has begun.
pub proof fn lemma_decimal_grows(text: Seq<u8>, from: int, mid: int, to: int)
    requires
        0 <= from <= mid <= to <= text.len(),
        forall|i: int| from <= i < to ==> is_digit(#[trigger] text[i]),
    ensures
        decimal(text.subrange(from, mid)) <= decimal(text.subrange(from, to)),
    decreases to - mid,
{
    if mid < to {
        lemma_decimal_grows(text, from, mid, to - 1);
        assert(text.subrange(from, to).drop_last() =~= text.subrange(from, to - 1));
    }
}

/// What stands at `pos` as a number: the number that the digits from `pos`
/// on write, with the place behind them; `ExpectedInt` where no digit stands
/// at `pos`; `Overflow` where the number does not fit the machine word.
pub open spec fn number_read(text: Seq<u8>, pos: int) -> Result<(usize, usize), Error> {
    let end = digits_end(text, pos);
    let value = decimal(text.subrange(pos, end));
    if end == pos {
        Err(Error::ExpectedInt)
    } else if value > usize::MAX {
        Err(Error::Overflow)
    } else {
        Ok((value as usize, end as usize))
    }
}

/// Reads a number in decimal digits.
///
/// Succeeds with the number and the place behind its last digit where a
/// digit stands at `pos` and the number fits the machine word. Fails with
/// `ExpectedInt` where no digit stands at `pos`, and with `Overflow` where
/// the number is too large.
pub fn parse_usize(input: &[u8], pos: usize) -> (r: Result<(usize, usize), Error>)
    requires
        pos <= input@.len(),
    ensures
        r == number_read(input@, pos as int),
        r matches Ok((_, next)) ==> pos < next <= input@.len(),
{
    let mut result: usize = 0;
    let mut next = pos;
    proof {
        lemma_digits_end(input@, pos as int);
        assert(input@.subrange(pos as int, pos as int) =~= Seq::<u8>::empty());
    }
    while next < input.len() && input[next].wrapping_sub(DIGIT_ZERO) <= 9
        invariant
            pos <= next <= input@.len(),
            digits_end(input@, next as int) == digits_end(input@, pos as int),
            next <= digits_end(input@, pos as int) <= input@.len(),
            result == decimal(input@.subrange(pos as int, next as int)),
            forall|i: int| pos <= i < digits_end(input@, pos as int) ==> is_digit(#[trigger] input@[i]),
        decreases input@.len() - next,
    {
        let dig: u8 = input[next] - DIGIT_ZERO;
        proof {
            assert(is_digit(input@[next as int]));
            lemma_digits_end(input@, next + 1);
            assert(input@.subrange(pos as int, next + 1) =~= input@.subrange(
                pos as int,
                next as int,
            ).push(input@[next as int]));
            lemma_decimal_push(input@.subrange(pos as int, next as int), input@[next as int]);
            lemma_decimal_grows(input@, pos as int, next + 1, digits_end(input@, pos as int));
        }
        let scaled = match result.checked_mul(10) {
            Some(scaled) => scaled,
            None => {
                return Err(Error::Overflow);
            },
        };
        result = match scaled.checked_add(dig as usize) {
            Some(sum) => sum,
            None => {
                return Err(Error::Overflow);
            },
        };
        next += 1;
    }
    if next == pos {
        Err(Error::ExpectedInt)
    } else {
        Ok((result, next))
    }
}

/// The place where the problem line's `cnf` is to begin: behind white space,
/// a `p`, and white space again.
pub open spec fn header_kind_at(text: Seq<u8>, pos: int) -> int {
    after_ws(text, after_ws(text, pos) + 1)
}

/// What stands at `pos` as a problem line: the number of variables, the
/// number of clauses and the place behind the second; `ExpectedP` where the
/// first byte behind white space is no `p`; `ExpectedCNF` where `cnf` does
/// not follow; else what is wrong with the first number that is not right.
pub open spec fn header_read(text: Seq<u8>, pos: int) -> Result<(usize, usize, usize), Error> {
    let p = after_ws(text, pos);
    let kind = header_kind_at(text, pos);
    if !(p < text.len() && text[p] == LETTER_P) {
        Err(Error::ExpectedP)
    } else if !(kind + 3 <= text.len() && text[kind] == LETTER_C && text[kind + 1] == LETTER_N && text[kind
        + 2] == LETTER_F) {
        Err(Error::ExpectedCNF)
    } else {
        match number_read(text, after_ws(text, kind + 3)) {
            Err(e) => Err(e),
            Ok((variables, first_end)) => match number_read(text, after_ws(text, first_end as int)) {
                Err(e) => Err(e),
                Ok((clauses, next)) => Ok((variables, clauses, next)),
            },
        }
    }
}

/// Reads the problem line: `p`, then `cnf`, then the number of variables and
/// the number of clauses, with white space between them and before them.
/// Returns the two numbers and the place behind the second.
pub fn parse_header(input: &[u8], pos: usize) -> (r: Result<(usize, usize, usize), Error>)
    requires
        pos <= input@.len(),
    ensures
        r == header_read(input@, pos as int),
        r matches Ok((_, _, next)) ==> pos < next <= input@.len(),
{
    proof {
        lemma_after_ws(input@, pos as int);
    }
    let p = skip_ws(input, pos);
    if !(p < input.len() && input[p] == LETTER_P) {
        return Err(Error::ExpectedP);
    }
    proof {
        lemma_after_ws(input@, p + 1);
    }
    let kind = skip_ws(input, p + 1);
    if !(kind < input.len() && input.len() - kind >= 3 && input[kind] == LETTER_C && input[kind + 1] == LETTER_N
        && input[kind + 2] == LETTER_F) {
        return Err(Error::ExpectedCNF);
    }
    let first = skip_ws(input, kind + 3);
    let (variables, first_end) = match parse_usize(input, first) {
        Ok(found) => found,
        Err(e) => {
            return Err(e);
        },
    };
    let second = skip_ws(input, first_end);
    let (clauses, next) = match parse_usize(input, second) {
        Ok(found) => found,
        Err(e) => {
            return Err(e);
        },
    };
    Ok((variables, clauses, next))
}

/// Where the number of a literal begins: behind white space and, where the
/// literal is negated, a minus sign and white space again.
pub open spec fn literal_number_at(text: Seq<u8>, pos: int) -> int {
    let sign = after_ws(text, pos);
    if sign < text.len() && text[sign] == MINUS {
        after_ws(text, sign + 1)
    } else {
        sign
    }
}

/// Whether the literal that begins at `pos` is negated.
pub open spec fn literal_negated(text: Seq<u8>, pos: int) -> bool {
    let sign = after_ws(text, pos);
    sign < text.len() && text[sign] == MINUS
}

/// The place behind the digits of the literal that begins at `pos`.
pub open spec fn literal_end(text: Seq<u8>, pos: int) -> int {
    digits_end(text, literal_number_at(text, pos))
}

/// What stands at `pos` as a literal: its number, whether it is negated,
/// and the place behind the number; or what is wrong with the number.
pub open spec fn literal_read(text: Seq<u8>, pos: int) -> Result<(usize, bool, usize), Error> {
    match number_read(text, literal_number_at(text, pos)) {
        Err(e) => Err(e),
        Ok((name, next)) => Ok((name, literal_negated(text, pos), next)),
    }
}

/// A literal that was read ends behind the place where it began, within the
/// text.
pub proof fn lemma_literal_read(text: Seq<u8>, pos: int)
    requires
        0 <= pos <= text.len() <= usize::MAX,
    ensures
        literal_read(text, pos) matches Ok((_, _, next)) ==> pos < next <= text.len() && next == literal_end(
            text,
            pos,
        ),
{
    lemma_after_ws(text, pos);
    let sign = after_ws(text, pos);
    if sign < text.len() {
        lemma_after_ws(text, sign + 1);
    }
    lemma_digits_end(text, literal_number_at(text, pos));
}

/// Reads a literal: a number, behind a minus sign where the literal is
/// negated. Returns the number, whether the literal is negated, and the
/// place behind the number.
pub fn parse_variable(input: &[u8], pos: usize) -> (r: Result<(usize, bool, usize), Error>)
    requires
        pos <= input@.len(),
    ensures
        r == literal_read(input@, pos as int),
        r matches Ok((_, _, next)) ==> pos < next <= input@.len(),
{
    proof {
        lemma_after_ws(input@, pos as int);
    }
    let mut at = skip_ws(input, pos);
    let neg = at < input.len() && input[at] == MINUS;
    if neg {
        proof {
            lemma_after_ws(input@, at + 1);
        }
        at = skip_ws(input, at + 1);
    }
    match parse_usize(input, at) {
        Ok((name, next)) => Ok((name, neg, next)),
        Err(e) => Err(e),
    }
}

/// Whether a line begins at `at`, white space aside: between the line feed
/// before it, or the beginning of the text, and `at` stands white space only.
pub open spec fn blank_before(text: Seq<u8>, at: int) -> bool
    decreases at,
{
    if at <= 0 || at > text.len() {
        true
    } else if text[at - 1] == LINE_FEED {
        true
    } else if spec_is_ws(text[at - 1]) {
        blank_before(text, at - 1)
    } else {
        false
    }
}

/// Finds out whether a line begins at `at`, white space aside.
pub fn begins_line(input: &[u8], at: usize) -> (begins: bool)
    requires
        at <= input@.len(),
    ensures
        begins == blank_before(input@, at as int),
{
    let mut i = at;
    while i > 0
        invariant
            i <= at,
            at <= input@.len(),
            blank_before(input@, at as int) == blank_before(input@, i as int),
        decreases i,
    {
        let byte = input[i - 1];
        if byte == LINE_FEED {
            return true;
        }
        if !is_ws(byte) {
            return false;
        }
        i -= 1;
    }
    true
}

/// The first place from `pos` on that begins neither white space nor a
/// comment line. A comment line begins with a `c` that is the first byte of
/// its line, white space aside, and ends before the next line feed.
pub open spec fn after_notes(text: Seq<u8>, pos: int) -> int
    decreases text.len() - pos,
{
    let at = after_ws(text, pos);
    if 0 <= pos <= at < text.len() && text[at] == LETTER_C && blank_before(text, at) && at < line_end(
        text,
        at + 1,
    ) <= text.len() {
        after_notes(text, line_end(text, at + 1))
    } else {
        at
    }
}

/// Comment lines and white space end within the text.
pub proof fn lemma_after_notes(text: Seq<u8>, pos: int)
    requires
        0 <= pos <= text.len(),
    ensures
        pos <= after_notes(text, pos) <= text.len(),
        after_ws(text, after_notes(text, pos)) == after_notes(text, pos),
    decreases text.len() - pos,
{
    let at = after_ws(text, pos);
    lemma_after_ws(text, pos);
    if at < text.len() && text[at] == LETTER_C && blank_before(text, at) {
        lemma_line_end(text, at + 1);
        lemma_after_notes(text, line_end(text, at + 1));
    } else {
        if at < text.len() {
            assert(!spec_is_ws(text[at]));
        }
    }
}

/// Goes on past white space and comment lines.
pub fn skip_notes(input: &[u8], pos: usize) -> (next: usize)
    requires
        pos <= input@.len(),
    ensures
        next == after_notes(input@, pos as int),
        pos <= next <= input@.len(),
{
    let mut at = pos;
    proof {
        lemma_after_notes(input@, pos as int);
    }
    loop
        invariant
            pos <= at <= input@.len(),
            after_notes(input@, at as int) == after_notes(input@, pos as int),
        ensures
            at == after_notes(input@, pos as int),
            pos <= at <= input@.len(),
        decreases input@.len() - at,
    {
        let ghost from = at;
        proof {
            lemma_after_ws(input@, from as int);
        }
        at = skip_ws(input, at);
        if at >= input.len() {
            return at;
        }
        if input[at] == LETTER_C && begins_line(input, at) {
            proof {
                lemma_line_end(input@, at + 1);
            }
            at = skip_past_eol(input, at + 1);
        } else {
            return at;
        }
    }
}

/// The literal that stands for `name`, negated or not, among `names`.
pub open spec fn literal_of(names: Seq<usize>, name: usize, negated: bool) -> Literal {
    Literal::spec_new(VariableId::spec_from_usize(number_of(names, name) as usize), negated)
}

/// The names, the literals and the place that reading a clause from `pos`
/// gives, when `names` are in use and `lits` were read for the clause before:
/// literal after literal up to a `0`, with comment lines before any of them
/// left out. It fails where a literal cannot be
/// read, with `EmptyClause` where the `0` comes first, and with `Overflow`
/// where a literal follows and no number is left for another variable.
pub open spec fn clause_read(text: Seq<u8>, pos: int, names: Seq<usize>, lits: Seq<Literal>) -> Result<
    (Seq<usize>, Seq<Literal>, usize),
    Error,
>
    decreases text.len() - pos,
    via clause_read_ends
{
    let from = after_notes(text, pos);
    match literal_read(text, from) {
        Err(e) => Err(e),
        Ok((name, negated, next)) => if name == 0 {
            if lits.len() == 0 {
                Err(Error::EmptyClause)
            } else {
                Ok((names, lits, next))
            }
        } else if names.len() >= usize::MAX / 2 {
            Err(Error::Overflow)
        } else {
            clause_read(
                text,
                literal_end(text, from),
                with_name(names, name),
                lits.push(literal_of(names, name, negated)),
            )
        },
    }
}

#[via_fn]
proof fn clause_read_ends(text: Seq<u8>, pos: int, names: Seq<usize>, lits: Seq<Literal>) {
    if 0 <= pos <= text.len() {
        lemma_after_notes(text, pos);
        let from = after_notes(text, pos);
        lemma_after_ws(text, from);
        let sign = after_ws(text, from);
        if sign < text.len() {
            lemma_after_ws(text, sign + 1);
        }
        lemma_digits_end(text, literal_number_at(text, from));
    } else if pos == -1 {
        lemma_after_ws(text, 0);
        lemma_digits_end(text, after_ws(text, 0));
    }
}

/// The names and the clauses that reading `count` clauses from `pos` gives,
/// when `names` are in use and `clauses` were read before.
pub open spec fn clauses_read(
    text: Seq<u8>,
    pos: int,
    names: Seq<usize>,
    clauses: Seq<Seq<Literal>>,
    count: nat,
) -> Result<(Seq<usize>, Seq<Seq<Literal>>), Error>
    decreases count,
{
    if count == 0 {
        Ok((names, clauses))
    } else {
        match clause_read(text, pos, names, Seq::empty()) {
            Err(e) => Err(e),
            Ok((more, lits, next)) => clauses_read(text, next as int, more, clauses.push(lits), (count - 1) as nat),
        }
    }
}

/// What a text in the DIMACS format says: the names of the variables, in the
/// order in which they first occur, and the clauses over their numbers.
///
/// Behind comments stands the problem line, and behind it as many clauses
/// as it declares. The text is refused with `EmptyQuery` where it declares
/// no clause, and with `VariableCount` where more variables occur than it
/// declares. What follows the last clause is not looked at.
pub open spec fn parsed(text: Seq<u8>) -> Result<(Seq<usize>, Seq<Seq<Literal>>), Error> {
    match header_read(text, after_comments(text, 0)) {
        Err(e) => Err(e),
        Ok((variables, count, next)) => if count == 0 {
            Err(Error::EmptyQuery)
        } else {
            match clauses_read(text, next as int, Seq::empty(), Seq::empty(), count as nat) {
                Err(e) => Err(e),
                Ok((names, clauses)) => if variables < names.len() {
                    Err(Error::VariableCount { expected: variables, actual: names.len() as usize })
                } else {
                    Ok((names, clauses))
                },
            }
        },
    }
}

/// Reads a clause into the builder: literals up to a `0`. The variables are
/// named by their numbers. Returns the place behind the `0`. Fails with
/// `EmptyClause` where the `0` comes first, and with `Overflow` where the
/// builder has no numbers left for another variable.
///
/// For a builder whose index holds the numbers of its names, the result, the
/// names and the new clause are those of `clause_read`.
#[verifier::loop_isolation(false)]
pub fn parse_clause(input: &[u8], pos: usize, builder: &mut ProblemBuilder<usize>) -> (r: Result<
    usize,
    Error,
>)
    requires
        pos <= input@.len(),
        old(builder).wf(),
    ensures
        final(builder).wf(),
        r matches Ok(next) ==> pos < next <= input@.len(),
        indexed(old(builder).index(), old(builder).names()) ==> match clause_read(
            input@,
            pos as int,
            old(builder).names(),
            Seq::empty(),
        ) {
            Ok((names, lits, next)) => {
                &&& r == Ok::<usize, Error>(next)
                &&& final(builder).names() == names
                &&& final(builder).clauses() == old(builder).clauses().push(lits)
                &&& indexed(final(builder).index(), final(builder).names())
            },
            Err(e) => r == Err::<usize, Error>(e),
        },
{
    broadcast use vstd::std_specs::hash::group_hash_axioms;

    let mut clause = builder.new_clause();
    let ghost prophecy = *final(clause.target());
    let ghost clauses0 = old(builder).clauses();
    let ghost names0 = old(builder).names();
    let ghost known = indexed(old(builder).index(), old(builder).names());
    let mut at = pos;
    loop
        invariant
            pos <= at <= input@.len(),
            clause.wf(),
            clause.spec_index() == clauses0.len(),
            clause.builder().clauses().len() == clauses0.len() + 1,
            forall|c: int|
                0 <= c < clauses0.len() ==> #[trigger] clause.builder().clauses()[c] == clauses0[c],
            *final(clause.target()) == prophecy,
            known ==> indexed(clause.builder().index(), clause.builder().names()),
            known ==> clause_read(input@, pos as int, names0, Seq::empty()) == clause_read(
                input@,
                at as int,
                clause.builder().names(),
                clause.lits(),
            ),
        decreases input@.len() - at,
    {
        let ghost head = at;
        at = skip_notes(input, at);
        proof {
            vstd::slice::axiom_spec_len(input);
            lemma_literal_read(input@, at as int);
        }
        let (name, neg, next) = match parse_variable(input, at) {
            Ok(found) => found,
            Err(e) => {
                return Err(e);
            },
        };
        if name == 0 {
            at = next;
            break ;
        }
        if clause.problembuilder.variable_count() >= usize::MAX / 2 {
            return Err(Error::Overflow);
        }
        let ghost before = clause.builder();
        let ghost lits = clause.lits();
        clause.add_literal(name, neg);
        proof {
            if known {
                let last = clause.lits().last();
                lemma_numbered(before, clause.builder(), name, last.spec_id());
                lemma_literal_parts_decide(last, literal_of(before.names(), name, neg));
                assert(clause.lits() =~= lits.push(literal_of(before.names(), name, neg)));
            }
        }
        at = next;
    }
    if clause.len() != 0 {
        Ok(at)
    } else {
        Err(Error::EmptyClause)
    }
}

/// Reads a problem in the DIMACS format: comments, the problem line, and as
/// many clauses as the problem line declares. What follows the last clause
/// is not looked at.
///
/// Succeeds exactly where `parsed` gives names and clauses, with the problem
/// of those clauses over those names; else it fails with the error that
/// `parsed` gives.
pub fn parse(input: &[u8]) -> (r: Result<Problem<usize>, Error>)
    ensures
        match r {
            Ok(problem) => {
                &&& problem.wf()
                &&& problem.conflicts() == 0
                &&& parsed(input@) == Ok::<(Seq<usize>, Seq<Seq<Literal>>), Error>(
                    (problem.names(), problem.origin()),
                )
            },
            Err(e) => parsed(input@) == Err::<(Seq<usize>, Seq<Seq<Literal>>), Error>(e),
        },
{
    let at = skip_comments(input, 0);
    let mut builder: ProblemBuilder<usize> = ProblemBuilder::new();
    proof {
        assert(indexed(builder.index(), builder.names()));
    }
    let (variables, clauses, start) = match parse_header(input, at) {
        Ok(found) => found,
        Err(e) => {
            return Err(e);
        },
    };
    if clauses == 0 {
        return Err(Error::EmptyQuery);
    }
    let mut at = start;
    let mut done: usize = 0;
    while done < clauses
        invariant
            done <= clauses,
            at <= input@.len(),
            builder.wf(),
            indexed(builder.index(), builder.names()),
            header_read(input@, after_comments(input@, 0)) == Ok::<(usize, usize, usize), Error>(
                (variables, clauses, start),
            ),
            clauses_read(input@, start as int, Seq::empty(), Seq::empty(), clauses as nat) == clauses_read(
                input@,
                at as int,
                builder.names(),
                builder.clauses(),
                (clauses - done) as nat,
            ),
        decreases clauses - done,
    {
        let ghost names = builder.names();
        let ghost before = builder.clauses();
        let ghost from = at as int;
        at = match parse_clause(input, at, &mut builder) {
            Ok(next) => next,
            Err(e) => {
                proof {
                    assert(clause_read(input@, from, names, Seq::empty()) is Err);
                    assert(clauses_read(input@, from, names, before, (clauses - done) as nat) == Err::<
                        (Seq<usize>, Seq<Seq<Literal>>),
                        Error,
                    >(e));
                }
                return Err(e);
            },
        };
        proof {
            assert(clause_read(input@, from, names, Seq::empty()) is Ok);
            assert(clauses_read(input@, from, names, before, (clauses - done) as nat) == clauses_read(
                input@,
                at as int,
                builder.names(),
                builder.clauses(),
                (clauses - done - 1) as nat,
            ));
        }
        done += 1;
    }
    if variables < builder.variable_count() {
        return Err(Error::VariableCount { expected: variables, actual: builder.variable_count() });
    }
    Ok(builder.as_problem())
}

} // verus!
