//! A compiler and an evaluator for straight-line arithmetic programs.
//!
//! A program is text: one instruction on each line, each instruction a
//! name, an operator and the names of its operands. [`compiler::compile`]
//! turns it into an [`operation::OperationTable`], a dense sequence of
//! operations in which every operand is the index of an earlier operation;
//! the names are gone. [`evaluator::evaluate`] walks a table once for a
//! pair of inputs `(x, y)` and returns the value of its last operation.
//!
//! The table is generic in the type of its constants, and the evaluator in
//! the type of its values. The compiler keeps each constant as the text of
//! its literal, checked against the grammar of [`literal`];
//! [`operation::OperationTable::map_constants`] gives the constants their
//! values in a numeric domain, and the evaluator is handed the arithmetic of
//! that domain.
//!
//! [`program`] says what a program means; [`renaming`] shows that the
//! names do not matter.

pub mod compiler;
pub mod evaluator;
pub mod literal;
pub mod operation;
pub mod program;
pub mod renaming;
pub mod symbols;
pub mod text;

pub use compiler::compile;
pub use evaluator::{eval, evaluate, Arithmetic};
pub use literal::Literal;
pub use operation::{InternalInvariantViolation, Operation, OperationTable};
pub use program::{Cause, MalformedProgram};
