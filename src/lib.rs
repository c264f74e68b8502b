//! Single-pass variable substitution over text templates.
//!
//! A template refers to variables as `${NAME}` and, when enabled, as `$NAME`.
//! The scanner replaces each reference whose name is in a [`VarTable`] by its
//! value, keeps every other reference exactly as written, and reduces the
//! escape sequences `\$`, `\{`, `\}` and `\\` to their literal character.

pub mod model;
pub mod table;
pub mod text;
pub mod scanner;
pub mod laws;

pub use scanner::{is_var_char, is_var_char_start, substitute, substitute_with, SubstError, SubstOptions};
pub use table::VarTable;
