//! Symbolic modeling of optimization problems: variables with types, polynomial
//! expressions of arbitrary degree over them, constraints and models.

pub mod abi;
pub mod addition;
pub mod collection;
pub mod constant;
pub mod constraint;
pub mod creation;
pub mod environment;
pub mod evaluation;
pub mod errors;
pub mod expression;
pub mod inspection;
pub mod laws;
pub mod model;
pub mod monomial;
pub mod multiplication;
pub mod operations;
pub mod ordering;
pub mod products;
pub mod removal;
pub mod separation;
pub mod substitution;
pub mod text;
pub mod types;
