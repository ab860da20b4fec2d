//! The error taxonomy of the message model and the trait for
//! converting message components to their HTTP text form.

use vstd::prelude::*;

verus! {

/// Why a message, start line or header field failed to parse.
#[derive(Clone, Copy, PartialEq, Eq, Structural, Debug)]
pub enum ParseError {
    /// A header line held no separator character.
    MalformedHeader,
    /// The message bytes were not valid UTF-8 text.
    InvalidEncoding,
    /// The message held no start line at all.
    NoStartLine,
    /// The start line had a single token, so it fits neither the
    /// request form (no target) nor the status form (no status code).
    UnknownMethodAndInvalidStatus,
    /// The would-be status code was not an unsigned decimal numeral
    /// with a value that fits in a `u32`.
    InvalidStatusCode,
}

/// Denotes that a value could not be converted to its HTTP text form.
#[derive(Clone, Copy, PartialEq, Eq, Structural, Debug)]
pub struct ErrorToHTTP;

/// Conversion of a message component to its HTTP text form.
pub trait HTTP {
    /// The component's serialized text form.
    spec fn http_form(&self) -> Seq<char>;

    /// Whether the component has a text form at all.
    spec fn http_serializable(&self) -> bool;

    /// Converts the component to its HTTP text form.
    fn to_http(&self) -> (r: Result<String, ErrorToHTTP>)
        ensures
            self.http_serializable() ==> (r matches Ok(s) && s@ == self.http_form()),
            !self.http_serializable() ==> r is Err,
    ;
}

} // verus!
