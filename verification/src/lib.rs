//! A strict Qute-style template language: its parser, validator, escaping
//! rules, message bundles and the position arithmetic used by editor tooling.

pub mod compiler;
pub mod derive;
pub mod engine;
pub mod error;
pub mod escape;
pub mod include_loader;
pub mod media;
pub mod messages;
pub mod paths;
pub mod text;
pub mod tooling;

use vstd::prelude::*;

verus! {

} // verus!
