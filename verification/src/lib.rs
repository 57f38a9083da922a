//! Compiles layered configuration sources into a single flat mapping of
//! uppercase, separator-joined string keys to string values, suitable for
//! export as environment variables.

mod config;
pub mod error;
pub mod laws;
mod strmap;
mod text;
mod value;

pub use crate::config::flatten_into;
pub use crate::config::flatten_into_inner;
pub use crate::config::warnings_formatter;
pub use crate::config::FlatConfig;
pub use crate::config::FlatConfigBuilder;
pub use crate::config::MergeWarning;
pub use crate::text::to_ascii_upper;
pub use crate::value::Value;
