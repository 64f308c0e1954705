//! A parser for Dent, a compact configuration and data language with
//! scalars, lists, dictionaries and extension functions called at parse
//! time.

use vstd::prelude::*;

pub mod engine;
pub mod error;
pub mod imports;
pub mod merge;
pub mod number;
pub mod parser;
pub mod query;
pub mod tokenizer;
pub mod value;

pub use engine::{Dent, Function};
pub use error::{Error, Fault};
pub use imports::{import_value, ImportCache};
pub use merge::merge;
pub use parser::ParserState;
pub use tokenizer::{Token, Tokenizer};
pub use value::{Model, Value};

verus! {

} // verus!
