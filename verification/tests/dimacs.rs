use drsat::cnf::{Literal, Problem, VariableId};
use drsat::parser::dimacs::{
    is_ws, parse, parse_header, parse_usize, parse_variable, skip_comments, skip_past_eol, skip_ws,
};
use drsat::parser::errors::Error;
use drsat::SolverResult;

fn solved(text: &str) -> (SolverResult, Problem<usize>) {
    let mut problem = parse(text.as_bytes()).expect("the text is a problem");
    let verdict = problem.solve();
    (verdict, problem)
}

fn value_of(problem: &Problem<usize>, name: usize) -> bool {
    for (n, value) in problem.model() {
        if *n == name {
            return value;
        }
    }
    panic!("no variable {}", name);
}

fn holds(problem: &Problem<usize>, clauses: &[&[i64]]) -> bool {
    clauses.iter().all(|clause| {
        clause.iter().any(|&lit| {
            let name = lit.unsigned_abs() as usize;
            value_of(problem, name) == (lit > 0)
        })
    })
}

#[test]
fn single_unit_clause_is_satisfiable() {
    let (verdict, problem) = solved("p cnf 1 1\n1 0\n");
    assert_eq!(verdict, SolverResult::Sat);
    assert_eq!(problem.model().len(), 1);
    assert!(value_of(&problem, 1));
}

#[test]
fn contradicting_units_are_unsatisfiable() {
    let (verdict, _) = solved("p cnf 1 2\n1 0\n-1 0\n");
    assert_eq!(verdict, SolverResult::Unsat);
}

#[test]
fn three_clauses_over_three_variables_are_satisfiable() {
    let (verdict, problem) = solved("p cnf 3 3\n1 -2 3 0\n-1 -2 3 0\n1 2 3 0\n");
    assert_eq!(verdict, SolverResult::Sat);
    assert!(holds(&problem, &[&[1, -2, 3], &[-1, -2, 3], &[1, 2, 3]]));
}

#[test]
fn all_eight_combinations_are_unsatisfiable() {
    let mut text = String::from("p cnf 3 8\n");
    for bits in 0..8 {
        for var in 0..3 {
            if bits & (1 << var) != 0 {
                text.push('-');
            }
            text.push_str(&format!("{} ", var + 1));
        }
        text.push_str("0\n");
    }
    let (verdict, _) = solved(&text);
    assert_eq!(verdict, SolverResult::Unsat);
}

fn pigeonhole(pigeons: usize, holes: usize) -> String {
    let var = |p: usize, h: usize| p * holes + h + 1;
    let mut clauses = Vec::new();
    for p in 0..pigeons {
        let clause: Vec<String> = (0..holes).map(|h| format!("{}", var(p, h))).collect();
        clauses.push(format!("{} 0", clause.join(" ")));
    }
    for h in 0..holes {
        for p in 0..pigeons {
            for q in 0..p {
                clauses.push(format!("-{} -{} 0", var(p, h), var(q, h)));
            }
        }
    }
    format!(
        "c pigeons in holes\np cnf {} {}\n{}\n",
        pigeons * holes,
        clauses.len(),
        clauses.join("\n")
    )
}

#[test]
fn three_pigeons_do_not_fit_two_holes() {
    let (verdict, _) = solved(&pigeonhole(3, 2));
    assert_eq!(verdict, SolverResult::Unsat);
}

#[test]
fn pigeons_fit_as_many_holes() {
    let text = pigeonhole(4, 4);
    let (verdict, problem) = solved(&text);
    assert_eq!(verdict, SolverResult::Sat);
    // every pigeon sits in a hole, and no two in one
    for p in 0..4 {
        assert!((0..4).any(|h| value_of(&problem, p * 4 + h + 1)));
    }
    for h in 0..4 {
        assert!((0..4).filter(|p| value_of(&problem, p * 4 + h + 1)).count() <= 1);
    }
}

#[test]
fn seven_pigeons_do_not_fit_six_holes() {
    // Hard enough for the learned clauses to be reduced on the way.
    let (verdict, _) = solved(&pigeonhole(7, 6));
    assert_eq!(verdict, SolverResult::Unsat);
}

#[test]
fn verdict_and_model_are_the_same_on_every_run() {
    let text = pigeonhole(5, 5);
    let (first, a) = solved(&text);
    let (second, b) = solved(&text);
    assert_eq!(first, second);
    let model_a: Vec<(usize, bool)> = a.model().into_iter().map(|(n, v)| (*n, v)).collect();
    let model_b: Vec<(usize, bool)> = b.model().into_iter().map(|(n, v)| (*n, v)).collect();
    assert_eq!(model_a, model_b);
}

#[test]
fn solving_again_gives_the_same_verdict() {
    let mut problem = parse(b"p cnf 3 3\n1 -2 3 0\n-1 -2 3 0\n1 2 3 0\n").unwrap();
    assert_eq!(problem.solve(), SolverResult::Sat);
    assert_eq!(problem.solve(), SolverResult::Sat);
    let mut problem = parse(b"p cnf 1 2\n1 0\n-1 0\n").unwrap();
    assert_eq!(problem.solve(), SolverResult::Unsat);
    assert_eq!(problem.solve(), SolverResult::Unsat);
}

#[test]
fn repeated_literals_and_tautologies_are_cleaned_up() {
    let (verdict, problem) = solved("p cnf 3 3\n1 1 2 0\n3 -3 1 0\n-1 -2 0\n");
    assert_eq!(verdict, SolverResult::Sat);
    assert!(holds(&problem, &[&[1, 2], &[-1, -2]]));
}

#[test]
fn units_are_propagated_before_the_search() {
    // x1, then x2 from the second clause, then x3 from the third
    let (verdict, problem) = solved("p cnf 3 3\n1 0\n-1 2 0\n-2 3 0\n");
    assert_eq!(verdict, SolverResult::Sat);
    assert!(value_of(&problem, 1) && value_of(&problem, 2) && value_of(&problem, 3));
    let (verdict, _) = solved("p cnf 3 4\n3 0\n-3 2 0\n-2 1 0\n-1 -3 0\n");
    assert_eq!(verdict, SolverResult::Unsat);
}

#[test]
fn clauses_are_unified_before_the_search() {
    // (a or b) and (a or not b) leave a; with (not a) nothing is left
    let (verdict, _) = solved("p cnf 2 3\n1 2 0\n1 -2 0\n-1 0\n");
    assert_eq!(verdict, SolverResult::Unsat);
    let (verdict, problem) = solved("p cnf 3 3\n1 2 0\n1 -2 0\n-1 3 0\n");
    assert_eq!(verdict, SolverResult::Sat);
    assert!(value_of(&problem, 1) && value_of(&problem, 3));
}

#[test]
fn comments_and_white_space_are_skipped() {
    let text = "c a comment\n  c another, indented\n\n p   cnf\t2 2 \n 1 \n -2 0 2 0 trailing junk";
    let (verdict, problem) = solved(text);
    assert_eq!(verdict, SolverResult::Sat);
    assert!(value_of(&problem, 1) && value_of(&problem, 2));
}

#[test]
fn a_minus_sign_may_stand_apart() {
    let (verdict, problem) = solved("p cnf 2 2\n- 1 0\n1 - 2 0\n");
    assert_eq!(verdict, SolverResult::Sat);
    assert!(!value_of(&problem, 1) && !value_of(&problem, 2));
}

#[test]
fn variables_are_numbered_as_they_occur() {
    let problem = parse(b"p cnf 9 1\n7 -3 9 0\n").unwrap();
    let names: Vec<usize> = problem.model().into_iter().map(|(n, _)| *n).collect();
    assert_eq!(names, vec![7, 3, 9]);
}

#[test]
fn white_space_is_space_and_control_characters() {
    for byte in 0..=255u8 {
        let expected = byte == b' ' || (9..=13).contains(&byte);
        assert_eq!(is_ws(byte), expected, "byte {}", byte);
    }
}

#[test]
fn skipping_stops_where_it_should() {
    assert_eq!(skip_ws(b"  \t\nx ", 0), 4);
    assert_eq!(skip_ws(b"x", 0), 0);
    assert_eq!(skip_ws(b"   ", 1), 3);
    assert_eq!(skip_past_eol(b"abc\ndef", 0), 3);
    assert_eq!(skip_past_eol(b"abc", 1), 3);
    assert_eq!(skip_comments(b"c x\n c y\n  p", 0), 11);
    assert_eq!(skip_comments(b"c x", 0), 3);
    assert_eq!(skip_comments(b"  p", 0), 2);
}

#[test]
fn numbers_are_read_in_decimal() {
    assert_eq!(parse_usize(b"0", 0), Ok((0, 1)));
    assert_eq!(parse_usize(b"12345 ", 0), Ok((12345, 5)));
    assert_eq!(parse_usize(b"x007y", 1), Ok((7, 4)));
    let max = format!("{}", usize::MAX);
    assert_eq!(parse_usize(max.as_bytes(), 0), Ok((usize::MAX, max.len())));
}

#[test]
fn a_number_that_does_not_fit_overflows() {
    let too_large = format!("{}0", usize::MAX);
    assert_eq!(parse_usize(too_large.as_bytes(), 0), Err(Error::Overflow));
    let one_more = "18446744073709551616";
    if usize::BITS == 64 {
        assert_eq!(parse_usize(one_more.as_bytes(), 0), Err(Error::Overflow));
    }
    // a number that wraps round to a larger one is still too large
    assert_eq!(
        parse_usize(b"99999999999999999999999999999999999999", 0),
        Err(Error::Overflow)
    );
    assert_eq!(
        parse(b"p cnf 99999999999999999999999999 1\n1 0\n").err(),
        Some(Error::Overflow)
    );
}

#[test]
fn a_number_is_expected() {
    assert_eq!(parse_usize(b"", 0), Err(Error::ExpectedInt));
    assert_eq!(parse_usize(b"x", 0), Err(Error::ExpectedInt));
    assert_eq!(parse_variable(b" - x", 0), Err(Error::ExpectedInt));
    assert_eq!(parse(b"p cnf x 1\n").err(), Some(Error::ExpectedInt));
    assert_eq!(parse(b"p cnf 1 1\n1").err(), Some(Error::ExpectedInt));
    assert_eq!(parse(b"p cnf 1 2\n1 0\n").err(), Some(Error::ExpectedInt));
}

#[test]
fn literals_are_read_with_their_sign() {
    assert_eq!(parse_variable(b" 12 ", 0), Ok((12, false, 3)));
    assert_eq!(parse_variable(b"-12", 0), Ok((12, true, 3)));
    assert_eq!(parse_variable(b" - 0", 0), Ok((0, true, 4)));
}

#[test]
fn the_problem_line_is_read() {
    assert_eq!(parse_header(b" p cnf 3 4\n", 0), Ok((3, 4, 10)));
    assert_eq!(parse_header(b"pcnf3 4", 0), Ok((3, 4, 7)));
    assert_eq!(parse_header(b"", 0), Err(Error::ExpectedP));
    assert_eq!(parse_header(b"q cnf 3 4", 0), Err(Error::ExpectedP));
    assert_eq!(parse_header(b"p dnf 3 4", 0), Err(Error::ExpectedCNF));
    assert_eq!(parse_header(b"p cn", 0), Err(Error::ExpectedCNF));
    assert_eq!(parse(b"c only a comment\n").err(), Some(Error::ExpectedP));
    assert_eq!(parse(b"p sat 1 1\n1 0\n").err(), Some(Error::ExpectedCNF));
}

#[test]
fn an_empty_query_is_an_error() {
    assert_eq!(parse(b"p cnf 3 0\n").err(), Some(Error::EmptyQuery));
}

#[test]
fn an_empty_clause_is_an_error() {
    assert_eq!(parse(b"p cnf 1 1\n0\n").err(), Some(Error::EmptyClause));
    assert_eq!(parse(b"p cnf 1 2\n1 0\n 0\n").err(), Some(Error::EmptyClause));
}

#[test]
fn more_variables_than_declared_are_an_error() {
    assert_eq!(
        parse(b"p cnf 2 1\n1 2 3 0\n").err(),
        Some(Error::VariableCount {
            expected: 2,
            actual: 3
        })
    );
    assert!(parse(b"p cnf 3 1\n1 2 3 0\n").is_ok());
    assert!(parse(b"p cnf 4 1\n1 2 3 0\n").is_ok());
}

#[test]
fn problems_are_made_from_literals_directly() {
    let lit = |id: usize, negated: bool| Literal::new(VariableId::from_usize(id), negated);
    let mut problem = Problem::new(
        vec!["a", "b", "c"],
        vec![
            vec![lit(0, false), lit(1, false)],
            vec![lit(0, true), lit(2, false)],
            vec![lit(1, true), lit(2, true)],
        ],
    );
    assert_eq!(problem.solve(), SolverResult::Sat);
    let model: Vec<bool> = problem.model().into_iter().map(|(_, v)| v).collect();
    assert!(model[0] || model[1]);
    assert!(!model[0] || model[2]);
    assert!(!model[1] || !model[2]);
    let names: Vec<&str> = problem.model().into_iter().map(|(n, _)| *n).collect();
    assert_eq!(names, vec!["a", "b", "c"]);
}

#[test]
fn an_empty_clause_has_no_model() {
    let mut problem: Problem<usize> = Problem::new(vec![1, 2], vec![vec![]]);
    assert_eq!(problem.solve(), SolverResult::Unsat);
}

#[test]
fn no_clauses_hold_trivially() {
    let mut problem: Problem<usize> = Problem::new(vec![1, 2], vec![]);
    assert_eq!(problem.solve(), SolverResult::Sat);
    assert_eq!(problem.model().len(), 2);
}

#[test]
fn units_are_sorted_before_they_are_propagated() {
    // the units fix the third variable, then the first; both are taken out
    // of the long clause, which is left with the second variable alone
    let problem = parse(b"p cnf 3 3\n1 2 3 0\n-3 0\n-1 0\n").expect("the text is well formed");
    assert_eq!(problem.clauses().len(), 0);
    assert_eq!(problem.active_variables(), 0);
    let model = problem.model();
    assert_eq!(model, vec![(&1, false), (&2, true), (&3, false)]);
}

#[test]
fn the_search_forgets_the_clauses_of_the_largest_glue() {
    let mut problem = parse(pigeonhole(8, 7).as_bytes()).expect("the text is well formed");
    assert_eq!(problem.solve(), SolverResult::Unsat);
    assert_eq!(problem.conflict_count(), 5104);
}

#[test]
fn a_model_is_total_also_where_the_answer_is_settled_before_the_search() {
    // the unit satisfies the second clause before the search begins; the
    // second variable, which nothing constrains, is fixed all the same
    let mut problem = parse(b"p cnf 2 2\n1 0\n1 2 0\n").expect("the text is well formed");
    assert_eq!(problem.solve(), SolverResult::Sat);
    assert!(problem.variables().iter().all(|var| var.has_value()));
    assert_eq!(problem.active_variables(), 0);
    let model = problem.model();
    assert!(model[0].1);
    assert!(model[0].1 || model[1].1);
}

#[test]
fn after_a_search_every_variable_has_a_value() {
    let mut problem = parse(b"p cnf 4 4\n1 2 0\n-1 3 0\n-2 -3 4 0\n-4 -1 -2 0\n").expect("the text is well formed");
    assert_eq!(problem.solve(), SolverResult::Sat);
    assert!(problem.variables().iter().all(|var| var.has_value()));
}

fn holds_under(clause: &[Literal], values: u32) -> bool {
    clause.iter().any(|lit| ((values >> lit.id().to_usize()) & 1 == 1) != lit.negated())
}

const NINE: &str = "p cnf 9 16\n1 2 3 0\n4 5 6 0\n7 8 9 0\n-1 -4 0\n-1 -7 0\n-4 -7 0\n-2 -5 0\n-2 -8 0\n-5 -8 0\n-3 -6 0\n-3 -9 0\n-6 -9 0\n-1 -5 0\n-2 -6 0\n-4 -8 0\n1 5 9 0\n";

#[test]
fn what_the_search_keeps_follows_from_the_given_clauses() {
    let given = Problem::<usize>::new(
        (1..=9).collect(),
        NINE.lines()
            .skip(1)
            .map(|line| {
                line.split(' ')
                    .filter(|word| *word != "0")
                    .map(|word| {
                        let number: i64 = word.parse().expect("the clauses are made of numbers");
                        Literal::new(VariableId::from_usize(number.unsigned_abs() as usize - 1), number < 0)
                    })
                    .collect::<Vec<Literal>>()
            })
            .collect(),
    );
    let original: Vec<Vec<Literal>> = NINE
        .lines()
        .skip(1)
        .map(|line| {
            line.split(' ')
                .filter(|word| *word != "0")
                .map(|word| {
                    let number: i64 = word.parse().expect("the clauses are made of numbers");
                    Literal::new(VariableId::from_usize(number.unsigned_abs() as usize - 1), number < 0)
                })
                .collect()
        })
        .collect();
    let mut problem = given;
    let verdict = problem.solve();
    assert_eq!(verdict, SolverResult::Sat);
    let mut models = 0;
    for values in 0u32..512 {
        if original.iter().all(|clause| holds_under(clause, values)) {
            models += 1;
            // every clause that is kept, given or learned, and every value
            // that is fixed for good holds in every model
            for clause in problem.clauses() {
                assert!(holds_under(clause.literals(), values));
            }
        }
    }
    assert!(models > 0);
    // the values that were found are one of the models
    let found: u32 = problem.model().iter().enumerate().map(|(v, (_, value))| (*value as u32) << v).sum();
    assert!(original.iter().all(|clause| holds_under(clause, found)));
    // after a search every clause that is kept holds a true literal
    for clause in problem.clauses() {
        assert!(holds_under(clause.literals(), found));
    }
}

#[test]
fn depths_never_fall_along_the_trail() {
    let mut problem = parse(NINE.as_bytes()).expect("the text is well formed");
    assert_eq!(problem.solve(), SolverResult::Sat);
    let depths: Vec<usize> = problem
        .applications()
        .iter()
        .map(|id| problem.variables()[id.to_usize()].get_depth().to_usize())
        .collect();
    assert!(!depths.is_empty());
    assert!(depths.windows(2).all(|pair| pair[0] <= pair[1]));
    // every variable on the trail is assigned, and stands there once
    let mut seen: Vec<usize> = problem.applications().iter().map(|id| id.to_usize()).collect();
    assert!(seen.iter().all(|v| problem.variables()[*v].has_value()));
    seen.sort();
    seen.dedup();
    assert_eq!(seen.len(), problem.applications().len());
}

#[test]
fn comment_lines_are_skipped_between_the_clauses_too() {
    let mut problem = parse(b"p cnf 1 1\nc note\n1 0\n").expect("a comment line may stand before a clause");
    assert_eq!(problem.solve(), SolverResult::Sat);
    let text = "c one\n  c two\np cnf 3 2\nc three\n1 -2\n   c within a clause, at the start of a line\n 3 0\nc four\n\nc five\n-1 0\nc last\n";
    let (verdict, problem) = solved(text);
    assert_eq!(verdict, SolverResult::Sat);
    assert!(!value_of(&problem, 1));
    assert!(!value_of(&problem, 2) || value_of(&problem, 3));
    // a `c` that does not begin its line is no comment
    assert_eq!(parse(b"p cnf 2 1\n1 c note\n2 0\n").err(), Some(Error::ExpectedInt));
    assert_eq!(parse(b"p cnf 2 1\n1 2 0 c note\n").map(|_| ()).ok(), Some(()));
}

#[test]
fn a_small_problem_always_gets_its_verdict() {
    // every formula over two variables with clauses of two literals
    let lits = [(1, false), (1, true), (2, false), (2, true)];
    let mut pairs = Vec::new();
    for a in 0..4 {
        for b in 0..4 {
            if lits[a].0 != lits[b].0 {
                pairs.push((lits[a], lits[b]));
            }
        }
    }
    for chosen in 1u32..(1 << pairs.len().min(8)) {
        let clauses: Vec<String> = (0..8)
            .filter(|c| chosen & (1 << c) != 0)
            .map(|c| {
                let ((x, nx), (y, ny)) = pairs[c];
                format!("{}{} {}{} 0", if nx { "-" } else { "" }, x, if ny { "-" } else { "" }, y)
            })
            .collect();
        let text = format!("p cnf 2 {}\n{}\n", clauses.len(), clauses.join("\n"));
        let mut problem = parse(text.as_bytes()).expect("the text is well formed");
        let verdict = problem.solve();
        let satisfiable = (0..4u32).any(|values| {
            (0..8).filter(|c| chosen & (1 << c) != 0).all(|c| {
                let ((x, nx), (y, ny)) = pairs[c];
                ((values >> (x - 1)) & 1 == 1) != nx || ((values >> (y - 1)) & 1 == 1) != ny
            })
        });
        assert_eq!(verdict, if satisfiable { SolverResult::Sat } else { SolverResult::Unsat });
    }
}

#[test]
fn open_variables_get_their_first_activities_from_the_weights_of_their_clauses() {
    // each clause of two literals weighs a quarter; the first variable stands
    // in three clauses, the second in two, the third in one
    let problem = parse(b"p cnf 3 3\n1 2 0\n-1 3 0\n-1 -2 0\n").expect("the text is well formed");
    assert_eq!(problem.clauses().len(), 3);
    let activities: Vec<u64> = problem.variables().iter().map(|var| var.q()).collect();
    assert_eq!(activities, vec![1_000_000_000_000, 666_666_666_666, 333_333_333_333]);
}
