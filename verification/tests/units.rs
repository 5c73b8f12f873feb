use drsat::cnf::print::{write_clause, write_literal, write_usize};
use drsat::cnf::problem::forget_half;
use drsat::cnf::problem::precompute::unification;
use drsat::cnf::util::{print_stats, write_stat};
use drsat::cnf::clause::Apply;
use drsat::cnf::{Clause, Literal, ProblemBuilder, Variable, VariableId};
use drsat::driver::comp::{status, status_line};
use drsat::driver::errors::Error;
use drsat::io::open_string;
use drsat::parser::dimacs::{parse, parse_usize};
use drsat::parser::errors::Error as ParseError;
use drsat::parser::sudoku::{read_cell, write_cell, write_cells};
use drsat::sudoku::Board;
use drsat::util::stopwatch::{format_duration, format_long_seconds};
use drsat::util::{Histo, IndexedVec, Typeinfo, USizeCast};
use drsat::SolverResult;

fn lit(id: usize, negated: bool) -> Literal {
    Literal::new(VariableId::from_usize(id), negated)
}

fn assigned(value: bool, depth: usize) -> Variable {
    let mut var = Variable::new();
    var.set(value, VariableId::from_usize(depth), usize::MAX);
    var
}

#[test]
fn a_new_clause_keeps_its_literals_and_its_glue() {
    let clause = Clause::new(vec![lit(3, false), lit(1, true)], VariableId::from_usize(7));
    assert_eq!(clause.len(), 2);
    assert!(!clause.is_empty());
    assert_eq!(clause.get_glue().to_usize(), 7);
    let lits: Vec<Literal> = clause.iter().copied().collect();
    assert_eq!(lits, vec![lit(3, false), lit(1, true)]);
    assert_eq!(clause.literals(), &[lit(3, false), lit(1, true)][..]);
}

#[test]
fn a_learned_clause_is_sorted_and_watches_its_deepest_literals() {
    let variables = vec![assigned(true, 1), assigned(false, 3), assigned(true, 2), assigned(true, 3)];
    let given = vec![lit(3, true), lit(0, true), lit(2, true), lit(1, false)];
    let (back, uip, clause) = Clause::from_learned(given, &variables, VariableId::from_usize(3));
    let lits: Vec<Literal> = clause.iter().copied().collect();
    assert_eq!(lits, vec![lit(0, true), lit(1, false), lit(2, true), lit(3, true)]);
    // depths 1, 3, 2, 3: three different ones
    assert_eq!(clause.get_glue().to_usize(), 3);
    // the first literal of the largest depth, and the depth of the next
    assert_eq!(uip, lit(1, false));
    assert_eq!(back.to_usize(), 3);
    assert!(clause.is_watched(VariableId::from_usize(1)));
    assert!(clause.is_watched(VariableId::from_usize(3)));
    assert!(!clause.is_watched(VariableId::from_usize(0)));
}

#[test]
fn a_learned_unit_clause_jumps_back_to_the_root() {
    let variables = vec![assigned(true, 4)];
    let (back, uip, clause) = Clause::from_learned(vec![lit(0, true)], &variables, VariableId::from_usize(4));
    assert_eq!(back.to_usize(), 0);
    assert_eq!(uip, lit(0, true));
    assert_eq!(clause.len(), 1);
    assert_eq!(clause.get_glue().to_usize(), 1);
}

#[test]
fn the_glue_of_a_learned_clause_lies_between_one_and_its_length() {
    for depths in [[1usize, 1, 1], [1, 2, 3], [2, 2, 5], [4, 1, 4]] {
        let variables: Vec<Variable> = depths.iter().map(|d| assigned(false, *d)).collect();
        let given = vec![lit(2, false), lit(1, false), lit(0, false)];
        let (_, _, clause) = Clause::from_learned(given, &variables, VariableId::from_usize(5));
        let glue = clause.get_glue().to_usize();
        assert!(1 <= glue && glue <= clause.len());
        let mut different = depths.to_vec();
        different.sort();
        different.dedup();
        assert_eq!(glue, different.len());
    }
}

#[test]
fn the_glue_is_only_lowered() {
    let variables = vec![assigned(true, 1), assigned(true, 1), assigned(true, 2), assigned(true, 2)];
    let lits = vec![lit(0, true), lit(1, true), lit(2, true), lit(3, true)];
    let mut clause = Clause::new(lits.clone(), VariableId::from_usize(4));
    clause.update_glue(&variables, VariableId::from_usize(2));
    assert_eq!(clause.get_glue().to_usize(), 2);
    // a glue of two or less is left alone
    let spread = vec![assigned(true, 1), assigned(true, 1), assigned(true, 1), assigned(true, 1)];
    clause.update_glue(&spread, VariableId::from_usize(2));
    assert_eq!(clause.get_glue().to_usize(), 2);
    // and one that would rise stays
    let mut other = Clause::new(lits, VariableId::from_usize(3));
    let deep = vec![assigned(true, 1), assigned(true, 2), assigned(true, 3), assigned(true, 4)];
    other.update_glue(&deep, VariableId::from_usize(4));
    assert_eq!(other.get_glue().to_usize(), 3);
}

#[test]
fn a_variable_keeps_its_phase_when_it_is_unset() {
    let mut var = Variable::new();
    assert!(!var.has_value());
    assert_eq!(var.value(), None);
    var.set(true, VariableId::from_usize(2), 5);
    assert!(var.has_value());
    assert_eq!(var.value(), Some(true));
    assert!(var.get_value());
    assert_eq!(var.get_depth().to_usize(), 2);
    assert_eq!(var.get_ante(), 5);
    var.unset();
    assert!(!var.has_value());
    assert_eq!(var.value(), None);
    assert!(var.get_value());
    var.set_phase(false);
    assert!(!var.get_value());
}

#[test]
fn a_variable_lists_the_clauses_that_watch_it() {
    let mut var = Variable::new();
    var.watch(4, false);
    var.watch(7, false);
    var.watch(9, true);
    assert!(var.watches(4));
    assert!(var.watches(9));
    assert!(!var.watches(5));
    assert_eq!(*var.get_clauses(false), vec![4, 7]);
    assert_eq!(*var.get_clauses(true), vec![9]);
    var.unwatch(4, false);
    assert!(!var.watches(4));
    assert_eq!(*var.watching(false), vec![7]);
    var.clear_watched();
    assert!(!var.watches(7));
    assert!(!var.watches(9));
}

#[test]
fn variable_ids_are_their_numbers() {
    assert_eq!(VariableId::from_usize(12).to_usize(), 12);
    assert_eq!(VariableId::max().to_usize(), usize::MAX);
    assert!(VariableId::from_usize(3) < VariableId::from_usize(4));
}

#[test]
fn a_histogram_counts_by_bin() {
    let mut histo = Histo::new();
    assert!(histo.bins.is_empty());
    histo.add(2);
    histo.add(0);
    histo.add(2);
    assert_eq!(histo.bins, vec![1, 0, 2]);
    histo.add(4);
    assert_eq!(histo.bins, vec![1, 0, 2, 0, 1]);
}

#[test]
fn each_error_has_its_exit_status() {
    assert_eq!(Error::Io.code(), 100);
    assert_eq!(Error::RawIo.code(), 100);
    assert_eq!(Error::ParseInt.code(), 2);
    assert_eq!(Error::Read { path: "a.cnf".to_string() }.code(), 100);
    assert_eq!(
        Error::Parse { source: ParseError::ExpectedP, path: "a.cnf".to_string() }.code(),
        2
    );
    assert_eq!(Error::InvalidSudokuDimensions.code(), 126);
}

#[test]
fn each_verdict_has_its_status_and_its_line() {
    assert_eq!(status(SolverResult::Sat), 10);
    assert_eq!(status(SolverResult::Unsat), 20);
    assert_eq!(status(SolverResult::Unknown), 0);
    assert_eq!(status_line(SolverResult::Sat), "s SATISFIABLE");
    assert_eq!(status_line(SolverResult::Unsat), "s UNSATISFIABLE");
    assert_eq!(status_line(SolverResult::Unknown), "s UNKNOWN");
}

#[test]
fn a_string_is_opened_as_its_bytes() {
    assert_eq!(open_string("p cnf 1 1\n1 0\n").ok(), Some(&b"p cnf 1 1\n1 0\n"[..]));
    assert_eq!(open_string("").ok(), Some(&b""[..]));
}

#[test]
fn a_builder_numbers_names_as_they_are_first_used() {
    let mut builder: ProblemBuilder<usize> = ProblemBuilder::new();
    assert_eq!(builder.variable_count(), 0);
    assert_eq!(builder.variable_id(40).to_usize(), 0);
    assert_eq!(builder.variable_id(7).to_usize(), 1);
    assert_eq!(builder.variable_id(40).to_usize(), 0);
    assert_eq!(builder.variable_count(), 2);
    {
        let mut clause = builder.new_clause();
        assert_eq!(clause.len(), 0);
        clause.add_literal(7, true).add_literal(9, false);
        assert_eq!(clause.len(), 2);
    }
    assert_eq!(builder.variable_count(), 3);
    let mut problem = builder.as_problem();
    assert_eq!(problem.solve(), SolverResult::Sat);
    let model = problem.model();
    assert_eq!(model.len(), 3);
    assert_eq!(*model[0].0, 40);
    assert_eq!(*model[1].0, 7);
    assert_eq!(*model[2].0, 9);
    assert!(!model[1].1 || model[2].1);
}

#[test]
fn a_builder_takes_names_of_any_kind() {
    let mut builder: ProblemBuilder<String> = ProblemBuilder::new();
    builder.new_clause().add_literal("a".to_string(), false);
    builder.new_clause().add_literal("a".to_string(), true).add_literal("b".to_string(), false);
    let mut problem = builder.as_problem();
    assert_eq!(problem.solve(), SolverResult::Sat);
    let model = problem.model();
    assert_eq!(model, vec![(&"a".to_string(), true), (&"b".to_string(), true)]);
}

#[test]
fn a_puzzle_is_read_line_by_line() {
    let text = b"12.4\r\n34 2\n0000\n4..a\n";
    let board = drsat::parser::sudoku::parse(text, 2, 2);
    assert!(matches!(board, Err(ParseError::UnexpectedByte(b'a'))));
    let text = b"12.4\r\n34 2\n0000\n4..1\n";
    let board = drsat::parser::sudoku::parse(text, 2, 2).expect("the puzzle is well formed");
    assert_eq!(board.count(), 4);
    assert!(board.is_set(0, 0));
    assert!(board.is_possible(0, 0, 0));
    assert!(!board.is_possible(0, 0, 1));
    assert!(!board.is_set(0, 2));
    assert!(board.is_possible(0, 2, 0) && board.is_possible(0, 2, 3));
    assert!(board.is_possible(3, 3, 0));
    assert!(!board.is_possible(3, 3, 3));
    assert_eq!(
        board.solve(),
        Some(vec![1, 2, 3, 4, 3, 4, 1, 2, 2, 1, 4, 3, 4, 3, 2, 1])
    );
}

#[test]
fn a_puzzle_that_ends_early_is_refused() {
    assert!(matches!(
        drsat::parser::sudoku::parse(b"1234\n34", 2, 2),
        Err(ParseError::UnexpectedEnd)
    ));
    assert!(matches!(drsat::parser::sudoku::parse(b"", 1, 1), Err(ParseError::UnexpectedEnd)));
    assert!(matches!(
        drsat::parser::sudoku::parse(b"12#4\n", 2, 2),
        Err(ParseError::UnexpectedByte(b'#'))
    ));
    assert!(matches!(
        drsat::parser::sudoku::parse(b"1254\n", 2, 2),
        Err(ParseError::UnexpectedByte(b'5'))
    ));
}

#[test]
fn the_bytes_of_a_puzzle_stand_for_values() {
    assert_eq!(read_cell(b' '), Some(0));
    assert_eq!(read_cell(b'.'), Some(0));
    assert_eq!(read_cell(b'0'), Some(0));
    assert_eq!(read_cell(b'7'), Some(7));
    assert_eq!(read_cell(b'a'), Some(10));
    assert_eq!(read_cell(b'Z'), Some(35));
    assert_eq!(read_cell(b'#'), None);
}

fn completes(board: &Board, rows: usize, cols: usize, values: &[usize]) -> bool {
    let count = rows * cols;
    if values.len() != count * count {
        return false;
    }
    for row in 0..count {
        for col in 0..count {
            let value = values[row * count + col];
            if value < 1 || value > count || !board.is_possible(row, col, value - 1) {
                return false;
            }
        }
    }
    for val in 1..=count {
        for line in 0..count {
            if !(0..count).any(|col| values[line * count + col] == val) {
                return false;
            }
            if !(0..count).any(|row| values[row * count + line] == val) {
                return false;
            }
        }
        for x in 0..rows {
            for y in 0..cols {
                let mut found = false;
                for a in 0..rows {
                    for b in 0..cols {
                        if values[(x * cols + b) * count + (y * rows + a)] == val {
                            found = true;
                        }
                    }
                }
                if !found {
                    return false;
                }
            }
        }
    }
    true
}

#[test]
fn what_is_found_completes_the_board() {
    for (rows, cols) in [(1usize, 1usize), (2, 2), (2, 3), (3, 2), (3, 3)] {
        let mut board = Board::new(rows, cols);
        board.set(0, 0, rows * cols);
        let (verdict, values) = board.complete();
        assert_eq!(verdict, SolverResult::Sat);
        let values = values.expect("with the answer Sat come the values");
        assert_eq!(values[0], rows * cols);
        assert!(completes(&board, rows, cols, &values));
        assert_eq!(board.solve(), Some(values));
    }
}

#[test]
fn a_board_with_a_value_twice_in_a_row_has_no_completion() {
    let mut board = Board::new(2, 3);
    board.set(4, 0, 3).set(4, 5, 3);
    assert_eq!(board.complete(), (SolverResult::Unsat, None));
    assert_eq!(board.solve(), None);
}

#[test]
fn a_board_with_a_value_twice_in_a_block_has_no_completion() {
    // in a board of blocks with two rows and three columns the cells (0, 0)
    // and (1, 2) lie in one block
    let mut board = Board::new(3, 2);
    board.set(0, 0, 5).set(1, 2, 5);
    assert_eq!(board.complete(), (SolverResult::Unsat, None));
    // the cells (0, 0) and (2, 1) lie in different blocks
    let mut board = Board::new(3, 2);
    board.set(0, 0, 5).set(2, 1, 5);
    let (verdict, values) = board.complete();
    assert_eq!(verdict, SolverResult::Sat);
    assert!(completes(&board, 3, 2, &values.expect("with the answer Sat come the values")));
}

#[test]
fn the_problem_of_a_board_names_its_possibilities() {
    let mut board = Board::new(2, 2);
    board.set(0, 0, 2);
    let problem = board.problem().expect("every cell has a value left");
    // three of the sixty-four possibilities were struck
    assert_eq!(problem.variable_names().len(), 61);
    assert!(problem.variable_names().iter().all(|name| *name < 64 && board.is_possible(
        name / 16,
        name / 4 % 4,
        name % 4
    )));
}

#[test]
fn numbers_are_written_in_decimal() {
    for (n, text) in [(0usize, "0"), (7, "7"), (10, "10"), (4096, "4096"), (1_000_000, "1000000")] {
        let mut out = b"x".to_vec();
        write_usize(&mut out, n);
        assert_eq!(out, format!("x{}", text).into_bytes());
    }
    let mut out = Vec::new();
    write_usize(&mut out, usize::MAX);
    assert_eq!(out, format!("{}", usize::MAX).into_bytes());
    assert_eq!(parse_usize(&out, 0), Ok((usize::MAX, out.len())));
}

#[test]
fn a_problem_is_written_in_the_format_it_is_read_in() {
    let mut problem = parse(b"c three clauses\np cnf 4 3\n1 -2 0\n2 3 -4 0\n-1 4 0\n").expect("the text is well formed");
    let text = problem.print_dimacs();
    assert_eq!(
        String::from_utf8(text.clone()).expect("the text is made of letters and digits"),
        "p cnf 4 3\n1 -2 0\n2 3 -4 0\n-1 4 0\n"
    );
    let mut again = parse(&text).expect("what was written can be read");
    assert_eq!(again.print_dimacs(), text);
    assert_eq!(problem.solve(), again.solve());
}

#[test]
fn literals_and_clauses_are_written_by_number() {
    let mut out = Vec::new();
    write_literal(&mut out, lit(0, false));
    write_literal(&mut out, lit(11, true));
    assert_eq!(out, b"1 -12 ".to_vec());
    let mut out = Vec::new();
    write_clause(&mut out, &Clause::new(vec![lit(2, true), lit(0, false)], VariableId::from_usize(0)));
    assert_eq!(out, b"-3 1 0\n".to_vec());
}

#[test]
fn an_indexed_vector_is_a_vector_under_other_keys() {
    let mut vec: IndexedVec<u32, char> = IndexedVec::with_capacity(4);
    assert_eq!(vec.len(), 0);
    vec.push('a');
    vec.push('b');
    vec.push('c');
    assert_eq!(vec.len(), 3);
    assert_eq!(*vec.get(1), 'b');
    vec.set(1, 'x');
    assert_eq!(vec.as_vec(), &vec!['a', 'x', 'c']);
    assert_eq!(vec.swap_remove(0), 'a');
    assert_eq!(vec.as_vec(), &vec!['c', 'x']);
    assert_eq!(vec.pop(), Some('x'));
    vec.resize(3, 'z');
    assert_eq!(vec.as_vec(), &vec!['c', 'z', 'z']);
    vec.as_mut_vec().push('q');
    assert_eq!(vec.len(), 4);
    vec.clear();
    assert_eq!(vec.pop(), None);
    let other: IndexedVec<usize, u8> = IndexedVec::from_vec(vec![1, 2]);
    assert_eq!(other.len(), 2);
    let empty: IndexedVec<usize, u8> = IndexedVec::new();
    assert_eq!(empty.len(), 0);
}

#[test]
fn keys_are_cast_to_places_and_back() {
    assert_eq!(<u32 as USizeCast>::to_usize(17), 17usize);
    assert_eq!(<u32 as USizeCast>::from_usize(17), 17u32);
    assert_eq!(<usize as USizeCast>::to_usize(usize::MAX), usize::MAX);
    assert_eq!(<usize as USizeCast>::from_usize(5), 5usize);
}

#[test]
fn type_info_tells_size_and_alignment() {
    assert_eq!(Typeinfo::<u32>::size(), 4);
    assert_eq!(Typeinfo::<u32>::alignment(), 4);
    assert_eq!(Typeinfo::<Literal>::size(), std::mem::size_of::<usize>());
    assert_eq!(Typeinfo::<[u8; 3]>::size(), 3);
    assert_eq!(Typeinfo::<[u8; 3]>::alignment(), 1);
}

#[test]
fn long_times_are_written_in_groups_of_three_digits() {
    let mut out = Vec::new();
    format_long_seconds(&mut out, 0);
    assert_eq!(out, b"0 s".to_vec());
    let mut out = Vec::new();
    format_long_seconds(&mut out, 1_002_030);
    assert_eq!(out, b"1 002 030 s".to_vec());
    assert_eq!(format_duration(None, 9_223_372_036_854_775_807), b"9 223 372 036 854 776 s".to_vec());
}

#[test]
fn a_board_is_written_as_its_problem() {
    let mut board = Board::new(1, 1);
    // one cell with one value: the cell's clause and one for its column, its row and its block
    assert_eq!(board.print_dimacs(), b"p cnf 0 0\n".to_vec());
    board.set(0, 0, 1);
    assert_eq!(board.print_dimacs(), b"p cnf 0 0\n".to_vec());
    let mut board = Board::new(2, 2);
    board.set(0, 0, 1).set(0, 1, 1);
    board.deduce();
    assert_eq!(board.print_dimacs(), b"p cnf 2 1\n1 0\n-1 0\n0\n".to_vec());
}

#[test]
fn deducing_strikes_nothing_that_a_completion_needs() {
    let full = [1usize, 2, 3, 4, 3, 4, 1, 2, 2, 1, 4, 3, 4, 3, 2, 1];
    let mut board = Board::new(2, 2);
    board.set(0, 0, 1).set(0, 1, 2).set(1, 2, 1).set(2, 0, 2).set(3, 3, 1).set(2, 2, 4);
    board.deduce();
    for row in 0..4 {
        for col in 0..4 {
            assert!(board.is_possible(row, col, full[row * 4 + col] - 1));
        }
    }
    // the first row: 1 and 2 are set, so that 3 and 4 are left for the others
    assert!(!board.is_possible(0, 2, 0) && !board.is_possible(0, 2, 1));
    assert!(!board.is_possible(1, 0, 0) && !board.is_possible(1, 1, 1));
    assert!(completes(&board, 2, 2, &board.solve().expect("the board has a completion")));
}

#[test]
fn a_histogram_weighs_its_bins() {
    let mut histo = Histo::new();
    assert_eq!(histo.total(), Some(0));
    histo.add(0);
    histo.add(2);
    histo.add(2);
    histo.add(3);
    // 1 * 1 + 2 * 3 + 1 * 4
    assert_eq!(histo.total(), Some(11));
    let heavy = Histo { bins: vec![0, u64::MAX / 2, 1] };
    assert_eq!(heavy.total(), None);
    let full = Histo { bins: vec![u64::MAX] };
    assert_eq!(full.total(), Some(u64::MAX));
}

#[test]
fn a_board_is_shown_with_what_is_left_in_each_cell() {
    let mut board = Board::new(1, 2);
    assert_eq!(
        String::from_utf8(board.dump()).expect("the text is made of letters and digits"),
        "1x2 board (count = 2)\n1212\n1212\n"
    );
    board.set(0, 1, 2);
    board.deduce();
    assert_eq!(
        String::from_utf8(board.dump()).expect("the text is made of letters and digits"),
        "1x2 board (count = 2)\n1..2\n.21.\n"
    );
    let wide = Board::new(2, 5);
    let text = String::from_utf8(wide.dump()).expect("the text is made of letters and digits");
    assert!(text.starts_with("2x5 board (count = 10)\n12345678910123456789101234"));
    assert_eq!(text.lines().count(), 11);
}

fn glued(id: usize, glue: usize) -> Clause {
    Clause::new(vec![lit(id, false), lit(id + 1, true)], VariableId::from_usize(glue))
}

fn glues_and_marks(clauses: &[Clause]) -> Vec<(usize, usize)> {
    clauses.iter().map(|clause| (clause.get_glue().to_usize(), clause.literals()[0].id().to_usize())).collect()
}

#[test]
fn the_worse_half_of_the_learned_clauses_is_forgotten() {
    // one clause that is never forgotten, then six learned ones
    let mut clauses =
        vec![glued(0, 9), glued(1, 5), glued(2, 2), glued(3, 3), glued(4, 2), glued(5, 7), glued(6, 2)];
    let kept_for_good = forget_half(&mut clauses, 1);
    // the three of glue 2 come first, in the order they had, and are kept for
    // good; of the three others the last is dropped
    assert_eq!(kept_for_good, 4);
    assert_eq!(glues_and_marks(&clauses), vec![(9, 0), (2, 2), (2, 4), (2, 6), (3, 3), (5, 1)]);
}

#[test]
fn a_clause_of_glue_one_stands_before_those_that_are_kept_for_good() {
    let mut clauses = vec![glued(0, 2), glued(1, 1), glued(2, 2), glued(3, 4), glued(4, 2)];
    let kept_for_good = forget_half(&mut clauses, 0);
    // sorted: 1, 2, 2, 2, 4; the clause of glue 1 ends the count at once
    assert_eq!(kept_for_good, 0);
    assert_eq!(glues_and_marks(&clauses), vec![(1, 1), (2, 0), (2, 2)]);
}

#[test]
fn nothing_is_forgotten_where_nothing_was_learned() {
    let mut clauses = vec![glued(0, 3), glued(1, 2)];
    assert_eq!(forget_half(&mut clauses, 2), 2);
    assert_eq!(glues_and_marks(&clauses), vec![(3, 0), (2, 1)]);
    let mut none: Vec<Clause> = Vec::new();
    assert_eq!(forget_half(&mut none, 0), 0);
}

#[test]
fn a_satisfied_clause_may_watch_a_false_literal_of_small_depth() {
    let mut variables = vec![Variable::new(), Variable::new(), Variable::new(), Variable::new()];
    let mut clause = Clause::new(
        vec![lit(0, false), lit(1, false), lit(2, false), lit(3, false)],
        VariableId::from_usize(0),
    );
    clause.notify_watched(0, &mut variables);
    assert!(variables[0].watches(0) && variables[1].watches(0));
    variables[3].set(false, VariableId::from_usize(1), usize::MAX);
    variables[2].set(true, VariableId::from_usize(2), usize::MAX);
    variables[0].set(false, VariableId::from_usize(3), usize::MAX);
    // the first watched literal has turned false; the search finds the third
    // literal true, and then the fourth, which is false but lies less deep
    assert!(matches!(clause.apply(0, &mut variables), Apply::Continue));
    assert!(clause.is_watched(VariableId::from_usize(3)));
    assert!(clause.is_watched(VariableId::from_usize(1)));
    assert!(!clause.is_watched(VariableId::from_usize(0)));
    assert!(variables[3].watches(0) && variables[1].watches(0) && !variables[0].watches(0));
    // the clause holds a true literal that is no deeper than the false one
    assert_eq!(variables[2].value(), Some(true));
    assert!(variables[2].get_depth().to_usize() <= variables[0].get_depth().to_usize());
}

#[test]
fn a_clause_tells_when_it_is_unit_or_falsified() {
    let mut variables = vec![Variable::new(), Variable::new(), Variable::new()];
    let mut clause = Clause::new(vec![lit(0, false), lit(1, true), lit(2, false)], VariableId::from_usize(0));
    clause.notify_watched(0, &mut variables);
    variables[0].set(false, VariableId::from_usize(1), usize::MAX);
    // the third literal is open and takes the place of the first
    assert!(matches!(clause.apply(0, &mut variables), Apply::Continue));
    assert!(clause.is_watched(VariableId::from_usize(2)) && clause.is_watched(VariableId::from_usize(1)));
    variables[2].set(false, VariableId::from_usize(1), usize::MAX);
    assert!(matches!(clause.apply(0, &mut variables), Apply::Unit(found) if found == lit(1, true)));
    variables[1].set(true, VariableId::from_usize(1), 0);
    assert!(matches!(clause.apply(0, &mut variables), Apply::Unsat));
    variables[1].unset();
    variables[1].set(false, VariableId::from_usize(2), usize::MAX);
    assert!(matches!(clause.apply(0, &mut variables), Apply::Continue));
}

fn names(texts: &[&str]) -> Vec<Vec<u8>> {
    texts.iter().map(|text| text.as_bytes().to_vec()).collect()
}

#[test]
fn literals_and_clauses_are_written_by_name() {
    assert_eq!(lit(0, false).print(b"x"), b"x".to_vec());
    assert_eq!(String::from_utf8(lit(0, true).print(b"rain")).expect("the text is well formed"), "¬rain");
    let clause = Clause::new(vec![lit(2, true), lit(0, false), lit(1, true)], VariableId::from_usize(0));
    let texts = names(&["a", "b", "c"]);
    assert!(clause.is_named(3));
    assert!(!clause.is_named(2));
    assert_eq!(String::from_utf8(clause.print(&texts)).expect("the text is well formed"), "¬c a ¬b");
    assert_eq!(String::from_utf8(clause.list(&texts)).expect("the text is well formed"), "-c  a -b ");
    let empty = Clause::new(Vec::new(), VariableId::from_usize(0));
    assert_eq!(empty.print(&texts), Vec::<u8>::new());
}

#[test]
fn a_problem_is_written_by_the_names_of_its_variables() {
    let mut builder: ProblemBuilder<String> = ProblemBuilder::new();
    builder.new_clause().add_literal("a".to_string(), false).add_literal("b".to_string(), true);
    builder.new_clause().add_literal("b".to_string(), false).add_literal("c".to_string(), false);
    builder.new_clause().add_literal("a".to_string(), true).add_literal("c".to_string(), true);
    let mut problem = builder.as_problem();
    let texts: Vec<Vec<u8>> = problem.variable_names().iter().map(|name| name.clone().into_bytes()).collect();
    assert!(problem.is_named(3));
    assert!(!problem.is_named(2));
    assert_eq!(
        String::from_utf8(problem.print(&texts)).expect("the text is well formed"),
        "Problem of 3 clauses:\na ¬b\nb c\n¬a ¬c\n"
    );
    assert_eq!(
        String::from_utf8(problem.print_clauses(&texts)).expect("the text is well formed"),
        " a -b \n b  c \n-a -c \n"
    );
    assert_eq!(problem.solve(), SolverResult::Sat);
    let model = String::from_utf8(problem.print_model(&texts, b"  ")).expect("the text is well formed");
    let lines: Vec<&str> = model.lines().collect();
    assert_eq!(lines.len(), 3);
    for (line, (name, value)) in lines.iter().zip(problem.model()) {
        assert_eq!(*line, format!("  {}: {}", name, value));
    }
}

#[test]
fn the_sizes_of_the_types_are_told() {
    let text = String::from_utf8(print_stats(b"  ")).expect("the text is well formed");
    let lines: Vec<&str> = text.lines().collect();
    assert_eq!(lines.len(), 6);
    let word = std::mem::size_of::<usize>();
    assert_eq!(lines[0], format!("  {:15} size: {:3} B, alignment: {:3} B", "Literal", word, word));
    assert_eq!(lines[3], format!("  {:15} size: {:3} B, alignment: {:3} B", "VariableId", word, word));
    assert!(lines[1].starts_with("  Clause          size: "));
    assert!(lines[2].starts_with("  Variable        size: "));
    assert!(lines[4].starts_with("  Problem<usize>  size: "));
    assert!(lines[5].starts_with("  Problem<String> size: "));
    let mut out = Vec::new();
    write_stat(&mut out, b"", b"a name of more than fifteen", 1234, 8);
    assert_eq!(
        String::from_utf8(out).expect("the text is well formed"),
        "a name of more than fifteen size: 1234 B, alignment:   8 B\n"
    );
}

#[test]
fn values_are_written_as_they_are_read() {
    for value in 0..=35usize {
        assert_eq!(read_cell(write_cell(value)), Some(value));
    }
    assert_eq!(write_cell(7), b'7');
    assert_eq!(write_cell(10), b'a');
    assert_eq!(write_cell(35), b'z');
    let values = vec![1, 2, 3, 4, 3, 4, 1, 2, 2, 1, 4, 3, 4, 3, 2, 1];
    let text = write_cells(&values, 4);
    assert_eq!(text, b"1234\n3412\n2143\n4321\n".to_vec());
    let board = drsat::parser::sudoku::parse(&text, 2, 2).expect("what was written can be read");
    assert_eq!(board.solve(), Some(values));
    assert_eq!(write_cells(&vec![12], 1), b"c\n".to_vec());
    assert_eq!(write_cells(&Vec::new(), 0), Vec::<u8>::new());
}

fn unassigned(count: usize) -> Vec<Variable> {
    (0..count).map(|_| Variable::new()).collect()
}

#[test]
fn clauses_that_can_be_unified_do_not_come_back_as_they_were() {
    // the second clause fits into the first, which is dropped
    let mut variables = unassigned(3);
    let mut clauses = vec![vec![lit(0, false), lit(1, false), lit(2, false)], vec![lit(0, false), lit(1, false)]];
    assert_eq!(unification(&mut variables, &mut clauses), None);
    assert_eq!(clauses, vec![vec![lit(0, false), lit(1, false)]]);
    // the second clause fits into the first but for one sign: the first loses that literal
    let mut variables = unassigned(3);
    let mut clauses = vec![vec![lit(0, false), lit(1, false), lit(2, true)], vec![lit(1, false), lit(2, false)]];
    assert_eq!(unification(&mut variables, &mut clauses), None);
    let mut left = clauses.clone();
    left.sort();
    assert_eq!(left, vec![vec![lit(0, false), lit(1, false)], vec![lit(1, false), lit(2, false)]]);
    // two clauses of one length that differ in one sign leave what they share
    let mut variables = unassigned(3);
    let mut clauses = vec![vec![lit(0, false), lit(1, false), lit(2, true)], vec![lit(0, false), lit(1, false), lit(2, false)]];
    assert_eq!(unification(&mut variables, &mut clauses), None);
    assert_eq!(clauses, vec![vec![lit(0, false), lit(1, false)]]);
    // what is left of two clauses is a single literal: its variable is fixed
    let mut variables = unassigned(2);
    let mut clauses = vec![vec![lit(0, false), lit(1, true)], vec![lit(0, false), lit(1, false)]];
    assert_eq!(unification(&mut variables, &mut clauses), None);
    assert!(clauses.is_empty());
    assert_eq!(variables[0].value(), Some(true));
    assert_eq!(variables[1].value(), None);
}

#[test]
fn clauses_that_cannot_be_unified_come_back_as_they_were() {
    let mut variables = unassigned(4);
    let given = vec![
        vec![lit(0, false), lit(1, false)],
        vec![lit(1, true), lit(2, false)],
        vec![lit(0, true), lit(2, true), lit(3, false)],
    ];
    let mut clauses = given.clone();
    assert_eq!(unification(&mut variables, &mut clauses), None);
    assert_eq!(clauses, given);
    assert!(variables.iter().all(|var| !var.has_value()));
}

#[test]
fn a_board_is_completed_or_has_no_completion() {
    for (rows, cols) in [(1usize, 2usize), (2, 2), (2, 3)] {
        let board = Board::new(rows, cols);
        let (verdict, values) = board.complete();
        assert_eq!(verdict, SolverResult::Sat);
        assert!(values.is_some());
        assert!(board.solve().is_some());
    }
    let mut board = Board::new(2, 2);
    board.set(0, 0, 1).set(1, 1, 1);
    assert_eq!(board.complete(), (SolverResult::Unsat, None));
    assert_eq!(board.solve(), None);
}

#[test]
fn the_clauses_are_gone_through_until_no_two_can_be_unified() {
    // p q s | p q r | p q -r | t u | t u w
    let mut variables = unassigned(7);
    let mut clauses = vec![
        vec![lit(0, false), lit(1, false), lit(3, false)],
        vec![lit(0, false), lit(1, false), lit(2, false)],
        vec![lit(0, false), lit(1, false), lit(2, true)],
        vec![lit(4, false), lit(5, false)],
        vec![lit(4, false), lit(5, false), lit(6, false)],
    ];
    assert_eq!(unification(&mut variables, &mut clauses), None);
    // the second and the third clause leave `p q`, into which the first
    // fits; the fourth has then taken the place of the first, before the
    // clause in hand, and is held against the fifth in the next pass
    clauses.sort();
    assert_eq!(clauses, vec![vec![lit(0, false), lit(1, false)], vec![lit(4, false), lit(5, false)]]);
}

#[test]
fn deducing_strikes_a_value_only_where_another_cell_holds_it_alone() {
    let mut before = Board::new(2, 2);
    before.set(0, 0, 1).set(1, 2, 3).set(3, 3, 2);
    let mut board = Board::new(2, 2);
    board.set(0, 0, 1).set(1, 2, 3).set(3, 3, 2);
    board.deduce();
    let same_unit = |r: usize, c: usize, r2: usize, c2: usize| r == r2 || c == c2 || (r / 2 == r2 / 2 && c / 2 == c2 / 2);
    for r in 0..4 {
        for c in 0..4 {
            for v in 0..4 {
                if before.is_possible(r, c, v) && !board.is_possible(r, c, v) {
                    let reason = (0..4).any(|r2| {
                        (0..4).any(|c2| {
                            (r2 != r || c2 != c)
                                && same_unit(r, c, r2, c2)
                                && before.is_possible(r2, c2, v)
                                && (0..4).all(|w| w == v || !board.is_possible(r2, c2, w))
                        })
                    });
                    assert!(reason);
                }
            }
        }
    }
    // two cells of a row that hold the same value alone strike each other
    let mut twice = Board::new(2, 2);
    twice.set(0, 0, 1).set(0, 1, 1);
    twice.deduce();
    assert!(!twice.is_possible(0, 1, 0));
}

#[test]
fn what_is_written_of_a_board_has_a_model_where_the_board_has_a_completion() {
    let mut board = Board::new(2, 2);
    board.set(0, 0, 1).set(0, 1, 1);
    assert_eq!(board.complete(), (SolverResult::Unsat, None));
    let mut written = parse(&board.print_dimacs()).expect("what was written can be read");
    assert_eq!(written.solve(), SolverResult::Unsat);
    let mut board = Board::new(2, 2);
    board.set(0, 0, 1).set(1, 1, 2);
    assert_eq!(board.complete().0, SolverResult::Sat);
    let mut written = parse(&board.print_dimacs()).expect("what was written can be read");
    assert_eq!(written.solve(), SolverResult::Sat);
}

#[test]
fn ids_are_ordered_as_their_numbers() {
    assert!(VariableId::from_usize(3) < VariableId::from_usize(4));
    assert!(VariableId::from_usize(4) >= VariableId::from_usize(4));
    assert_eq!(
        VariableId::from_usize(9).partial_cmp(&VariableId::from_usize(2)),
        Some(std::cmp::Ordering::Greater)
    );
    assert!(VariableId::from_usize(5) < VariableId::max());
}
