//! The renderer's values, scopes and the decisions it takes on each section.

pub mod value;
pub mod eval;
pub mod scope;
pub mod plan;
pub mod nesting;
pub mod settings;
pub mod loading;
pub mod walk;
