//! Parser and solver for quadratic equations written as text, such as
//! `2*x^2 - 3*x + 1 = 0`.
//!
//! The accepted surface is checked by a hand-written recursive-descent
//! parser (`grammar`), the matched terms are turned into exact decimal
//! values (`terms`), summed into the three coefficients (`extract`), and
//! classified by the closed-form discriminant (`solve`). All arithmetic
//! is exact: values are decimals `num / 10^scale`, so the sign of the
//! discriminant and the degenerate cases are decided without rounding.

pub mod extract;
pub mod grammar;
pub mod solve;
pub mod terms;

pub use extract::extract_coeff;
pub use extract::process_pair;
pub use grammar::Grammar;
pub use grammar::ParseNode;
pub use grammar::Rule;
pub use grammar::SyntaxError;
pub use solve::linear_root;
pub use solve::solve;
pub use solve::Ratio;
pub use solve::Solution;
pub use solve::SolveError;
pub use terms::parse_const;
pub use terms::parse_term;
pub use terms::Decimal;
pub use terms::ParserError;
pub use terms::Unit;
