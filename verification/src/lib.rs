//! A relaxed JSON dialect: parsing, programmatic tree construction, and
//! serialization.
//!
//! The dialect accepts both `"`- and `'`-quoted strings and keys, integer and
//! floating-point numeric literals, `true`/`false`/`null`, arrays and objects.
//! Whitespace outside quoted spans is insignificant; the content of quoted
//! spans is kept verbatim (no escape sequences).
//!
//! Numeric literals that fit a signed 64-bit integer become [`JsonValue::Int`];
//! any other literal matching the dialect's decimal grammar is kept as its
//! literal text in [`JsonValue::Double`], so the tree itself stays free of
//! floating-point values.

pub mod scan;
pub mod value;
pub mod num;
pub mod dense;
pub mod text;
pub mod parser;
pub mod render;
pub mod laws;

pub use value::JsonError;
pub use value::JsonModel;
pub use value::JsonValue;
pub use parser::parse;
pub use parser::parse_key;
pub use parser::parse_str_value;
