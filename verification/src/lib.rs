//! Proof kernel for the Calculus of Constructions (CoC) with inductive types.
//!
//! A term of the calculus is an identifier, an application `A B`, an
//! abstraction `λx:A.B`, a product `∀x:A.B`, a fixed point `𝐘x:A.B` or a
//! constructor term `℺A.B`. The kernel normalizes terms (β-, η-, δ-reduction,
//! fixed point expansion and α-conversion), infers their types, and records
//! definitions in a `State` once their stated types are checked.
use vstd::prelude::*;

pub mod display;
pub mod error;
pub mod inductive;
pub mod infer;
pub mod laws;
pub mod matching;
pub mod nameless;
pub mod names;
pub mod reduce;
pub mod renaming;
pub mod rules;
pub mod state;
pub mod subst;
pub mod term;

pub use error::KernelError;
pub use state::State;
pub use term::{Term, TermDebugContext};

verus! {

} // verus!
