pub mod board;
pub mod counting;
pub mod encoding;
pub mod print;

pub use self::board::Board;
