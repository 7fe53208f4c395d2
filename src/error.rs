use vstd::prelude::*;

verus! {

/// Outcome of converting a literal to a binary floating-point format.
#[derive(Debug, Clone, Copy, PartialEq, Eq)]
pub enum ConversionResult<T> {
    /// The value represents the literal exactly.
    Precise(T),
    /// Bits were dropped, or the literal lay outside the normal range: the
    /// value is the truncated approximation, zero or infinity.
    Imprecise(T),
}

impl<T> ConversionResult<T> {
    /// The carried value, whatever the precision tag.
    pub open spec fn value(self) -> T {
        match self {
            ConversionResult::Precise(f) => f,
            ConversionResult::Imprecise(f) => f,
        }
    }

    /// Whether the conversion was exact.
    pub open spec fn is_precise(self) -> bool {
        self is Precise
    }

    /// Convert the result to its contained value.
    pub fn inner(self) -> (r: T)
        ensures
            r == self.value(),
    {
        match self {
            ConversionResult::Precise(f) => f,
            ConversionResult::Imprecise(f) => f,
        }
    }
}

/// Kind of parsing error.
#[derive(Debug, Clone, Copy, PartialEq, Eq, Structural)]
pub enum ParseErrorKind {
    /// No `0x` or `0X` prefix after the optional sign. Example: `0.F`
    MissingPrefix,
    /// No hexadecimal digits before or after the point. Example: `0x.p1`
    MissingDigits,
    /// A `p` or `P` marker with no decimal digits after it. Example: `0x1p-`
    MissingExponent,
    /// The exponent does not fit in a signed 32-bit integer. Example: `0x1p3000000000`
    ExponentOverflow,
    /// Bytes remain after a complete literal. Example: `0x1.g`
    MissingEnd,
}

/// Error of the literal parser: its kind and the byte offset at which it was
/// detected (the input length when the input ended early).
#[derive(Debug, Clone, Copy, PartialEq, Eq, Structural)]
pub struct ParseError {
    /// Kind of error
    pub kind: ParseErrorKind,
    /// Byte offset of the defect in the input
    pub index: usize,
}

impl ParseErrorKind {
    /// An error of this kind at `index`.
    pub(crate) fn at(self, index: usize) -> (r: ParseError)
        ensures
            r == (ParseError { kind: self, index }),
    {
        ParseError { kind: self, index }
    }
}

impl ParseError {
    /// A short human-readable description of the error.
    pub fn message(&self) -> (r: &'static str)
        ensures
            r@ == error_message(self.kind),
    {
        match self.kind {
            ParseErrorKind::MissingPrefix => "literal must have hex prefix",
            ParseErrorKind::MissingDigits => "literal must have digits",
            ParseErrorKind::MissingExponent => "exponent not present",
            ParseErrorKind::ExponentOverflow => "exponent too large to fit in integer",
            ParseErrorKind::MissingEnd => "extra bytes were found at the end of float literal",
        }
    }
}

/// The description that [`ParseError::message`] gives for each kind.
pub open spec fn error_message(kind: ParseErrorKind) -> Seq<char> {
    match kind {
        ParseErrorKind::MissingPrefix => "literal must have hex prefix"@,
        ParseErrorKind::MissingDigits => "literal must have digits"@,
        ParseErrorKind::MissingExponent => "exponent not present"@,
        ParseErrorKind::ExponentOverflow => "exponent too large to fit in integer"@,
        ParseErrorKind::MissingEnd => "extra bytes were found at the end of float literal"@,
    }
}

} // verus!
