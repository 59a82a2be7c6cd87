use vstd::prelude::*;

verus! {

/// Every failure that the library reports; none of them is retried.
#[derive(Clone, Copy, Debug, PartialEq, Eq, Structural)]
pub enum Error {
    /// A feature carries no recognized identifier property.
    MissingIdentifier,
    /// A coordinate lies outside the open interval (-180, 180).
    CoordinateOutOfRange,
    /// A coordinate is not written as a plain decimal number.
    MalformedCoordinate,
    /// A feature has an identifier but no usable geometry.
    UnresolvableFeature,
    /// The input is not a feature collection.
    UnsupportedInputShape,
    /// The output destination could not be written.
    OutputWriteFailed,
}

} // verus!
