//! Continuous-query core: operators, join indexes, query parsing and static
//! data.
pub mod algebra;
pub mod listing;
pub mod matching;
pub mod model;
pub mod name_sets;
pub mod names;
pub mod operator;
mod par;
pub mod parser;
pub mod query;
pub mod store;
pub mod stream;
pub mod text;
pub mod text_laws;
pub mod wrapping;
