pub mod laws;
pub mod metadata;
pub mod parser;
pub mod value;
