//! A register calculator with lazily evaluated operations.
//!
//! Operations on a register are queued and only applied when the register's
//! value is asked for; an operand that names another register pulls that
//! register's value in first, and a chain of registers that needs its own
//! value is reported as a cycle.
pub mod calculator;
pub mod components;
pub mod control;

pub use calculator::Calculator;
pub use control::{execute_line, execute_normalized, LineOutcome};
pub use components::{EvalError, OpKind, Operand, Operation, ParseError, RegID, Register};
