//! Wordlist generation engine: expands template rules such as
//! `"{org}{user}@2024"` against named sets of substrings (elements),
//! filters the candidates by length, and deduplicates them globally
//! across all rules.
//!
//! The engine is pure: configuration loading and the output sink are
//! left to the caller, which hands in a populated [`config::DgConfig`]
//! and receives the accepted candidates in acceptance order.

pub mod config;
pub mod expand;
pub mod parse;
pub mod run;

pub use config::DgConfig;
pub use config::Element;
pub use config::LengthFilter;
pub use config::duplicate_codes;
pub use config::is_valid_code;
pub use config::normalize_elements;
pub use config::normalize_items;
pub use config::valid_codes;
pub use expand::expand;
pub use parse::Token;
pub use parse::parse;
pub use run::accept;
pub use run::generate_dict;
