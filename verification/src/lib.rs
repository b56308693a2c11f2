//! A verified parser and compiler for a declarative pipeline-configuration
//! language: literal values, a structural config grammar with nested
//! conditionals, an infix-to-postfix compiler for condition guards, a plugin
//! registry consulted at parse time, and a memoizing cache.

pub mod types;
pub mod parsers;
pub mod eval;
pub mod config;
pub mod registry;
pub mod cache;
