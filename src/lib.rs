//! Typed configuration values from flat `key=value` data: environment variables, or
//! newline-delimited text.
//!
//! A shape names its fields and the kind of value each one wants. The pairs are trimmed of
//! quotes and spaces, their keys are compared in lowercase, and each matching value is
//! converted to its field's kind.

pub mod affix;
pub mod convert;
pub mod de;
pub mod error;
pub mod parse;
pub mod postfix;
pub mod prefix;
pub mod sanitize;
pub mod shape;
pub mod text;

pub use convert::{
    from_env, from_env_with_trimmer, from_iter, from_iter_with_trimmer, from_os_env,
    from_os_env_with_trimmer, from_str,
};
pub use de::{EnvVarDeserializer, EnvVarValue};
pub use error::Error;
pub use postfix::{case_insensitive_postfixed, postfixed, CaseInsensitivePostfixed, Postfixed};
pub use prefix::{case_insensitive_prefixed, prefixed, CaseInsensitivePrefixed, Prefixed};
pub use shape::{Field, Kind, Value};
