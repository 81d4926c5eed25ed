//! Expands prompt templates made of nested colour layers into text with
//! 256-colour terminal escape codes.

pub mod escape;
pub mod laws;
pub mod style;
pub mod template;
pub mod text;

pub use escape::{Escape, Shell};
pub use style::{IntError, Style, StyleError};
pub use template::{generate, TemplateError};
