use vstd::prelude::*;

verus! {

/// Errors surfaced by the library.
#[derive(Debug, Clone, Copy, PartialEq, Eq, Structural)]
pub enum Error {
    /// The raster transform can not be inverted.
    TransformNotInvertible,
    /// The input array holds no values.
    EmptyArray,
    /// The input array does not have a supported shape.
    UnsupportedArrayShape,
    /// None of the requested destination cells could be anchored to the
    /// graph. Routing would otherwise traverse the complete graph.
    DestinationsNotInGraph,
    /// The name does not denote an axis order.
    UnknownAxisOrder,
    /// The name does not denote a resolution search mode.
    UnknownResolutionSearchMode,
}

impl Error {
    /// A short human readable description of the error.
    pub fn message(&self) -> &'static str {
        match self {
            Error::TransformNotInvertible => "Transform is not invertible",
            Error::EmptyArray => "Empty array",
            Error::UnsupportedArrayShape => "Unsupported array shape",
            Error::DestinationsNotInGraph => "none of the destination cells is part of the graph",
            Error::UnknownAxisOrder => "unknown axis order",
            Error::UnknownResolutionSearchMode => "unknown resolution search mode",
        }
    }
}

} // verus!
