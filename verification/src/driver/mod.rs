pub mod comp;
pub mod errors;
