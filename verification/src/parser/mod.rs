pub mod dimacs;
pub mod errors;
pub mod sudoku;
