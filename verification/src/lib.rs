//! The core of an assembler: banks, symbols and rules, and the passes over the
//! source that turn them into bits.
//!
//! The language of the source is not part of it. A program that implements
//! [`host::Host`] parses files into a [`state::State`] and evaluates expressions;
//! [`assembler::Assembler`] does the rest. What each step comes to is stated in terms
//! of what the host returned, whatever that is.
pub mod assembler;
pub mod bank;
pub mod bigint;
pub mod bits;
pub mod bitvec;
pub mod constrain;
pub mod diagn;
pub mod eval;
pub mod expr;
pub mod host;
pub mod laws;
pub mod output;
pub mod repeat;
pub mod resolve;
pub mod ruleset;
pub mod state;
pub mod symbol;
pub mod text;
pub mod validate;
