//! A token-driven calculator engine: an expression evaluator with undo,
//! history, bracket tracking and fixed-width display rendering, computing on
//! exact rationals. The unary function keys that need real-valued math are
//! evaluated through an outside calculator crate behind a narrow trusted
//! boundary; everything else is verified down to exact contracts.

pub mod calcdep;
pub mod display;
pub mod engine;
pub mod laws;
pub mod number;
pub mod text;
pub mod token;
