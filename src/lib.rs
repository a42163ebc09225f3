//! Middle layer of a small Scheme implementation: interned symbols, the
//! tagged value tree, a structural matcher, hygienic renaming
//! (alphatization) and conversion to administrative normal form.

pub mod alphatize;
pub mod core_scheme;
pub mod error;
pub mod jit;
pub mod matcher;
pub mod object;
pub mod symbol;

pub use error::{Error, ErrorKind};
pub use matcher::SchemeExpression;
pub use object::Object;
