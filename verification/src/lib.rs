//! A family of abstract machines for the lambda-calculus and its sequential
//! and concurrent refinements.
//!
//! Four machines are provided, each extending the previous one's state:
//! - PAM: a substitution-based machine for the plain lambda-calculus;
//! - KAM: a Krivine-style machine using closures and environments;
//! - SAM: a machine for a sequential calculus of push/pop/sequence terms,
//!   with an explicit continuation stack;
//! - FCMC: the sequential calculus generalised to named locations (stacks
//!   and channels) with a fork primitive and a deterministic scheduler.

pub mod names;
pub mod examples;
pub mod fcmc;
pub mod fmc;
pub mod kam;
pub mod lambdaterm;
pub mod pam;
pub mod sam;
