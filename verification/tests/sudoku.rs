use drsat::sudoku::Board;

#[test]
fn invalid1() {
    let mut board = Board::new(2, 2);
    board.set(0, 0, 1);
    board.set(0, 1, 1);
    let solution = board.solve();
    assert_eq!(solution, None);
}

#[test]
fn invalid2() {
    let mut board = Board::new(3, 3);
    board.set(0, 0, 1);
    board.set(0, 1, 1);
    let solution = board.solve();
    assert_eq!(solution, None);
}

#[test]
fn invalid3() {
    let mut board = Board::new(2, 3);
    board.set(0, 0, 1);
    board.set(0, 1, 1);
    let solution = board.solve();
    assert_eq!(solution, None);
}

#[test]
fn simple1() {
    let mut board = Board::new(2, 2);
    board.set(0, 0, 1).set(0, 1, 2).set(0, 2, 3).set(0, 3, 4);
    board.set(1, 0, 3).set(1, 1, 4).set(1, 2, 1).set(1, 3, 2);
    board.set(2, 0, 2).set(2, 1, 1).set(2, 2, 4).set(2, 3, 3);
    board.set(3, 0, 4).set(3, 1, 3).set(3, 2, 2).set(3, 3, 1);
    let solution = board.solve();
    assert_eq!(
        solution,
        Some(vec![1, 2, 3, 4, 3, 4, 1, 2, 2, 1, 4, 3, 4, 3, 2, 1])
    );
}

#[test]
fn simple2() {
    let mut board = Board::new(2, 2);
    board.set(0, 0, 1).set(0, 1, 2).set(0, 2, 3).set(0, 3, 4);
    board.set(1, 0, 3).set(1, 1, 4).set(1, 2, 1).set(1, 3, 2);
    board.set(2, 0, 2).set(2, 1, 1).set(2, 2, 4).set(2, 3, 3);
    let solution = board.solve();
    assert_eq!(
        solution,
        Some(vec![1, 2, 3, 4, 3, 4, 1, 2, 2, 1, 4, 3, 4, 3, 2, 1])
    );
}

#[test]
fn simple3() {
    let mut board = Board::new(2, 2);
    board.set(0, 0, 1).set(0, 1, 2).set(0, 2, 3);
    board.set(1, 0, 3).set(1, 1, 4).set(1, 2, 1);
    board.set(2, 0, 2).set(2, 1, 1).set(2, 2, 4);
    let solution = board.solve();
    assert_eq!(
        solution,
        Some(vec![1, 2, 3, 4, 3, 4, 1, 2, 2, 1, 4, 3, 4, 3, 2, 1])
    );
}

#[test]
fn simple4() {
    let mut board = Board::new(2, 2);
    board.set(0, 0, 1).set(0, 1, 2).set(0, 2, 3);
    board.set(1, 0, 3).set(1, 2, 1);
    board.set(2, 0, 2).set(2, 1, 1).set(2, 2, 4);
    let solution = board.solve();
    assert_eq!(
        solution,
        Some(vec![1, 2, 3, 4, 3, 4, 1, 2, 2, 1, 4, 3, 4, 3, 2, 1])
    );
}

#[test]
fn invalid1_deduced() {
    let mut board = Board::new(2, 2);
    board.set(0, 0, 1);
    board.set(0, 1, 1);
    board.deduce();
    let solution = board.solve();
    assert_eq!(solution, None);
}

#[test]
fn invalid2_deduced() {
    let mut board = Board::new(3, 3);
    board.set(0, 0, 1);
    board.set(0, 1, 1);
    board.deduce();
    let solution = board.solve();
    assert_eq!(solution, None);
}

#[test]
fn invalid3_deduced() {
    let mut board = Board::new(2, 3);
    board.set(0, 0, 1);
    board.set(0, 1, 1);
    board.deduce();
    let solution = board.solve();
    assert_eq!(solution, None);
}

#[test]
fn simple4_deduced() {
    let mut board = Board::new(2, 2);
    board.set(0, 0, 1).set(0, 1, 2).set(0, 2, 3);
    board.set(1, 0, 3).set(1, 2, 1);
    board.set(2, 0, 2).set(2, 1, 1).set(2, 2, 4);
    let solution = board.solve();
    board.deduce();
    assert_eq!(
        solution,
        Some(vec![1, 2, 3, 4, 3, 4, 1, 2, 2, 1, 4, 3, 4, 3, 2, 1])
    );
}

#[test]
fn one_empty_cell_has_the_unique_completion() {
    let full = [1, 2, 3, 4, 3, 4, 1, 2, 2, 1, 4, 3, 4, 3, 2, 1];
    for hole in 0..16 {
        let mut board = Board::new(2, 2);
        for cell in 0..16 {
            if cell != hole {
                board.set(cell / 4, cell % 4, full[cell]);
            }
        }
        assert!(!board.is_set(hole / 4, hole % 4));
        assert_eq!(board.solve(), Some(full.to_vec()));
    }
}

#[test]
fn deduce_fills_the_last_cell_of_a_row() {
    let mut board = Board::new(2, 2);
    board.set(0, 0, 1).set(0, 1, 2).set(0, 2, 3);
    assert!(!board.is_set(0, 3));
    board.deduce();
    assert!(board.is_set(0, 3));
    assert!(board.is_set(0, 0));
}

#[test]
fn deduce_on_an_empty_board_changes_nothing() {
    let mut board = Board::new(3, 2);
    board.deduce();
    for row in 0..6 {
        for col in 0..6 {
            assert!(!board.is_set(row, col));
        }
    }
}

#[test]
fn six_by_six_board_is_completed() {
    let mut board = Board::new(3, 2);
    board.set(0, 0, 1).set(0, 1, 2).set(0, 2, 3);
    let solution = board.solve().expect("an almost empty board has a completion");
    assert_eq!(solution.len(), 36);
    assert_eq!(&solution[0..3], &[1, 2, 3]);
    for row in 0..6 {
        let mut seen = [false; 7];
        for col in 0..6 {
            let v = solution[row * 6 + col];
            assert!(1 <= v && v <= 6);
            assert!(!seen[v]);
            seen[v] = true;
        }
    }
    for col in 0..6 {
        let mut seen = [false; 7];
        for row in 0..6 {
            let v = solution[row * 6 + col];
            assert!(!seen[v]);
            seen[v] = true;
        }
    }
}
