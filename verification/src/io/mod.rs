pub mod errors;
pub mod open;
pub use self::open::open_string;
