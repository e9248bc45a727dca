//! An exact-arithmetic calculator core.
//!
//! A line of mixed-notation arithmetic is split into lexemes and classified
//! (`tokenizer`), gains its implicit multiplications (`parser::sanitase`),
//! builds into an expression tree in one forward pass consulting a session
//! variable table (`parser`), and evaluates to an exact fraction over 64-bit
//! integers (`op`, `rational`).  Fractions are kept in lowest terms; a zero
//! denominator is the "undefined" sentinel, an ordinary value that division
//! by zero produces and every operation propagates.  `laws` states and proves
//! the properties that span the pipeline.
pub mod arith;
pub mod laws;
pub mod op;
pub mod parser;
pub mod rational;
pub mod roots;
pub mod tokenizer;
