//! Discovery of reusable abstractions ("inventions") over a corpus of
//! lambda-calculus programs held in a hash-consed expression graph, and an
//! evaluator for domain-specific lambda expressions.

pub mod lambda;
pub mod syntax;
pub mod graph;
pub mod shift;
pub mod invention;
pub mod expr;
pub mod order;
pub mod inversion;
pub mod rewrite;
pub mod dom_expr;
pub mod beta;
pub mod expand;
pub mod search_laws;
