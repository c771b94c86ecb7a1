//! Settings validation and e-mail notifications: key rewriting and semantic
//! rules for the settings document, a parser for address texts, template
//! files and placeholder substitution, and message composition.

pub mod config;
pub mod email;
pub mod text;
