//! Decides what a declarative system configuration applies and how safely: the
//! dependency resolver orders requested modules, and the command validator turns
//! module-declared command text into an argument vector that no shell re-reads.
use vstd::prelude::*;

pub mod audit;
pub mod backup;
pub mod command_validator;
pub mod config;
pub mod gpg;
pub mod module;
pub mod package;
pub mod presets;

verus! {

/// The library's version.
pub const VERSION: &'static str = "0.1.0";

} // verus!
