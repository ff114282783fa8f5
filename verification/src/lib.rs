//! Prepares the prose of structured markup documents for an external
//! checker and maps the checker's answers back to source locations.

pub mod text;
pub mod syntax;
pub mod source;
pub mod words;
pub mod diagnostic;
pub mod mapping;
pub mod text_builder;
pub mod table;
pub mod rules;
pub mod chunker;
pub mod walker;
pub mod layout;
pub mod collector;
pub mod cache;
pub mod session;
pub mod cursor;
pub mod output;
pub mod options;
pub mod remote;
pub mod laws;
pub mod order;
pub mod round_trip;
pub mod recheck;
pub mod editor;
pub mod convert;

pub use collector::FileCollector;
pub use diagnostic::{Diagnostic, Suggestion};
pub use options::{BackendOptions, LanguageToolOptions};
pub use rules::Rules;
