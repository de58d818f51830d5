//! A compiler and validator for declarative Landlock sandbox policies.
//!
//! A policy fragment declares handled access rights against a versioned
//! capability vocabulary, a table of string-set variables, and templated
//! path and port rules.  Fragments merge through a commutative, idempotent
//! `compose` that intersects handled rights and downgrades every rule to
//! them, and a composed policy resolves into concrete normalized paths by
//! Cartesian-product expansion of its templates.  The composition laws and
//! the resolution determinism are proved in [`config`] and [`resolve`].

pub mod access;
pub mod aggregate;
pub mod assoc;
pub mod config;
pub mod expand;
pub mod fragment;
pub mod parser;
pub mod resolve;
pub mod ruleset;
pub mod strutil;
pub mod variable;

pub use access::AbiVersion;
pub use config::Config;
pub use fragment::{ConfigError, ConfigFormat, Fragment};
pub use parser::{TemplateError, TemplateString, TemplateToken};
pub use resolve::ResolvedConfig;
pub use variable::{Name, NameError, ResolveError};
