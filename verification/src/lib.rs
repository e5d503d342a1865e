//! A small spreadsheet formula engine.
//!
//! The engine parses a formula language into an abstract syntax tree,
//! stores one formula per cell in a sparse grid, and evaluates a cell on
//! demand, resolving references to other cells, detecting circular
//! references, and folding arithmetic and aggregate operators.
//!
//! Cell values are exact rationals: the formula language only admits
//! finite decimal literals, and every operator is computed exactly over
//! `i64`-bounded rationals, with an explicit error when a result cannot
//! be represented.

pub mod coord;
pub mod digits;
pub mod formula;
pub mod number;
pub mod parser;
pub mod sheet;

pub use coord::{
    natural_col_to_numeric, natural_to_numeric, numeric_col_to_natural, Coord, NatCoord,
};
pub use formula::{Formula, FormulaAtom, FormulaErr, FormulaOp};
pub use number::Number;
pub use parser::{format_formula, parse_formula, ParseError};
pub use sheet::Sheet;
