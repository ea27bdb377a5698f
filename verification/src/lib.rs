//! Charter CSV: a stack-based query/aggregation pipeline ("csvqb") evaluated
//! over in-memory tabular datasets, together with the aggregation primitives
//! it is built on and the grid/session text codecs around it.

pub mod aggregate;
pub mod eval;
pub mod grid;
pub mod laws;
pub mod num;
pub mod pipeline;
pub mod session;
pub mod strings;
pub mod value;

pub use grid::CsvGrid;
pub use num::Num;
pub use session::CharterCsv;
pub use value::{Operator, Value};

use vstd::prelude::*;

verus! {

/// The screen the surrounding application is showing.
pub enum Screen {
    Main,
    ViewCsv,
    CreateCsv { content: (String, grid::CsvGrid) },
    EditCsv { index: usize, content: (String, grid::CsvGrid) },
    CreateChart,
    ViewChart,
}

} // verus!
