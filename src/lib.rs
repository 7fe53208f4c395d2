//! Parser for hexadecimal floating-point literals (`0x1.8p3`) and their
//! conversion to IEEE-754 binary floating-point bit patterns of a chosen
//! width, tagged with whether the conversion was exact.
//!
//! - `literal`: the grammar, as the spec function `parse_literal`, and
//!   `FloatLiteral::from_bytes`, which returns exactly what it says.
//! - `format`: the conversion, as the spec function `convert_spec`, one
//!   algorithm for every width, and the laws that relate it to the literal's
//!   value and to other widths.
//! - `error`: the result and error types.
//!
//! Conversion truncates toward zero. A result is `Precise` exactly when no
//! set bit of the literal was dropped and the value lies in the normal range;
//! subnormal numbers are not produced (values below the normal range become a
//! signed zero, values above it a signed infinity, both `Imprecise`).
use vstd::prelude::*;

pub mod error;
pub mod format;
pub mod literal;

pub use error::{ConversionResult, ParseError, ParseErrorKind};
pub use format::FPFormat;
pub use literal::FloatLiteral;

verus! {

} // verus!
