use vstd::prelude::*;

pub mod engine;
pub mod facts;
pub mod parser;
pub mod rule;
pub mod session;

pub use engine::{run, SearchError, Usage, MAX_DEPTH};
pub use facts::{Facts, FactsView};
pub use parser::{parse_query, Expected, ParseError};
pub use rule::Rule;
pub use session::{Query, QueryError, Session};

verus! {

} // verus!
