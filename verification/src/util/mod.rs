pub mod histo;
pub use self::histo::Histo;

pub mod indexed_vec;
pub use self::indexed_vec::{IndexedVec, USizeCast};

pub mod stopwatch;

pub mod typeinfo;
pub use self::typeinfo::Typeinfo;
