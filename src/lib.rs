//! CNF SAT instances: packed literals, clauses, and instances with a
//! current assignment, together with a DIMACS CNF reader and writer.
pub mod bits;
pub mod clause;
pub mod dimacs;
pub mod instance;
pub mod literal;
pub mod round_trip;

pub use clause::Clause;
pub use instance::Instance;
pub use literal::Literal;
