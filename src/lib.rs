//! Decoding of flat, underscore-delimited key/value namespaces (such as a
//! process environment) into nested structured values.
//!
//! The pairs are folded into a [`Node`] tree, one level per `_` in a key,
//! with keys folded to lower case and empty values dropped. A [`Shape`]
//! then says what to read from the tree; [`decode`] walks both and yields a
//! [`Value`] or an [`Error`].

pub mod access;
pub mod de;
pub mod empty_str;
pub mod error;
pub mod shape;
pub mod text;
pub mod value;

pub use de::{decode, from_iter, from_iter_with_prefix};
pub use empty_str::EmptyStr;
pub use error::{Error, ErrorKind};
pub use shape::{Fallback, Field, Shape, Tagging, Value, Variant, VariantForm};
pub use value::Node;
