//! An arithmetic expression evaluator for a push-button calculator.
//!
//! Numbers are exact fractions with bounded numerator and denominator
//! (`ratio`); literals are read and results written with four decimal places
//! in `number`. The evaluator (`eval`) scans the typed symbols once, left to
//! right, with an operand stack and an operator stack; `entries` holds what
//! the keys have typed. `theorems`, `flat` and `grouping` prove how evaluation
//! behaves: precedence, unary minus, division by zero, parentheses, and
//! results that read back unchanged.
pub mod ratio;
pub mod number;
pub mod eval;
pub mod entries;
pub mod theorems;
pub mod flat;
pub mod grouping;
