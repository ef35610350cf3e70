//! Evaluation core of an arithmetic expression engine.
//!
//! Two independent components: [`answer`] models the outcome of evaluating an
//! expression that may have several equally valid values, and [`op`] models
//! the operators whose precedence and associativity decide evaluation order.
//! [`fanout`] holds the mathematical model of combining answers, [`laws`]
//! what follows from it, and [`render`] the textual form of an answer.

pub mod answer;
pub mod fanout;
pub mod laws;
pub mod op;
pub mod render;
