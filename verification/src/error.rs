//! What can go wrong with a vector field.

use vstd::prelude::*;

verus! {

/// Parts of a `.vec` file, named where the file ends inside one.
#[derive(Clone, Copy, Debug, PartialEq, Eq, Structural)]
pub enum Section {
    Magic,
    U32,
    U64,
    Options,
    TqplusShift,
    TqplusScale,
    PackedCodes,
    Renorm,
    Graph,
    LayerCounts,
    AdjOffsets,
}

impl Section {
    /// The part's name in messages.
    pub open spec fn spec_name(self) -> Seq<char> {
        match self {
            Section::Magic => "magic"@,
            Section::U32 => "u32"@,
            Section::U64 => "u64"@,
            Section::Options => "options"@,
            Section::TqplusShift => "tqplus shift"@,
            Section::TqplusScale => "tqplus scale"@,
            Section::PackedCodes => "packed codes"@,
            Section::Renorm => "renorm"@,
            Section::Graph => "graph"@,
            Section::LayerCounts => "layer counts"@,
            Section::AdjOffsets => "adj offsets"@,
        }
    }

    /// The part's name in messages.
    pub fn name(self) -> (r: &'static str)
        ensures
            r@ == self.spec_name(),
    {
        match self {
            Section::Magic => "magic",
            Section::U32 => "u32",
            Section::U64 => "u64",
            Section::Options => "options",
            Section::TqplusShift => "tqplus shift",
            Section::TqplusScale => "tqplus scale",
            Section::PackedCodes => "packed codes",
            Section::Renorm => "renorm",
            Section::Graph => "graph",
            Section::LayerCounts => "layer counts",
            Section::AdjOffsets => "adj offsets",
        }
    }
}

/// The families of errors that callers tell apart.
#[derive(Clone, Copy, Debug, PartialEq, Eq, Structural)]
pub enum ErrorKind {
    /// Stored bytes do not hold what they should.
    DataCorruption,
    /// The library was handed buffers that do not fit together.
    InternalError,
    /// The schema does not allow the operation.
    SchemaError,
    /// The caller's argument is not acceptable.
    InvalidArgument,
}

/// An error of the vector index.
#[derive(Clone, Copy, Debug, PartialEq, Eq, Structural)]
pub enum VectorError {
    /// The file ends inside the named part.
    Truncated(Section),
    /// The graph ends before its entry layer.
    TruncatedEntryLayer,
    /// The file does not start with the magic of the supported format.
    UnsupportedFormat,
    /// The field options stored in the file could not be read.
    BadOptions,
    /// A run of stored components has another length than announced.
    ComponentLengthMismatch,
    /// The field options could not be turned into what is stored of them.
    OptionsUnwritable,
    /// A flat buffer does not hold one row per document.
    FlatLength { got: usize, expected: usize },
    /// A document gave a vector field a value that is no vector.
    ExpectedVector { field: u32 },
    /// A query was aimed at a field that is no vector field.
    NotAVectorField,
    /// A document's vector has another dimension than its field.
    DimensionMismatch { expected: usize, got: usize },
    /// A document has no vector in a vector field.
    MissingVector { doc: u32, field: u32 },
    /// The query vector has another dimension than the field.
    QueryDimension { got: usize, expected: usize },
    /// The document is not among the hits.
    NotAmongResults { doc: u32 },
}

impl VectorError {
    /// The family that the error belongs to.
    pub open spec fn spec_kind(self) -> ErrorKind {
        match self {
            VectorError::Truncated(_) => ErrorKind::DataCorruption,
            VectorError::TruncatedEntryLayer => ErrorKind::DataCorruption,
            VectorError::UnsupportedFormat => ErrorKind::DataCorruption,
            VectorError::BadOptions => ErrorKind::DataCorruption,
            VectorError::ComponentLengthMismatch => ErrorKind::DataCorruption,
            VectorError::OptionsUnwritable => ErrorKind::InternalError,
            VectorError::FlatLength { .. } => ErrorKind::InternalError,
            VectorError::ExpectedVector { .. } => ErrorKind::SchemaError,
            VectorError::NotAVectorField => ErrorKind::SchemaError,
            VectorError::DimensionMismatch { .. } => ErrorKind::InvalidArgument,
            VectorError::MissingVector { .. } => ErrorKind::InvalidArgument,
            VectorError::QueryDimension { .. } => ErrorKind::InvalidArgument,
            VectorError::NotAmongResults { .. } => ErrorKind::InvalidArgument,
        }
    }

    /// The family that the error belongs to.
    pub fn kind(self) -> (r: ErrorKind)
        ensures
            r == self.spec_kind(),
    {
        match self {
            VectorError::Truncated(_) => ErrorKind::DataCorruption,
            VectorError::TruncatedEntryLayer => ErrorKind::DataCorruption,
            VectorError::UnsupportedFormat => ErrorKind::DataCorruption,
            VectorError::BadOptions => ErrorKind::DataCorruption,
            VectorError::ComponentLengthMismatch => ErrorKind::DataCorruption,
            VectorError::OptionsUnwritable => ErrorKind::InternalError,
            VectorError::FlatLength { .. } => ErrorKind::InternalError,
            VectorError::ExpectedVector { .. } => ErrorKind::SchemaError,
            VectorError::NotAVectorField => ErrorKind::SchemaError,
            VectorError::DimensionMismatch { .. } => ErrorKind::InvalidArgument,
            VectorError::MissingVector { .. } => ErrorKind::InvalidArgument,
            VectorError::QueryDimension { .. } => ErrorKind::InvalidArgument,
            VectorError::NotAmongResults { .. } => ErrorKind::InvalidArgument,
        }
    }
}

/// Which family an error belongs to: values and fields that the schema does not allow are
/// errors of the schema; dimensions, documents without a vector and documents that were not
/// found are errors of the argument; options and buffers that cannot be written are internal;
/// and whatever is wrong with stored bytes is corrupt data.
pub proof fn errors_belong_to_the_family_of_their_cause(e: VectorError)
    ensures
        e.spec_kind() == ErrorKind::SchemaError <==> e is ExpectedVector || e is NotAVectorField,
        e.spec_kind() == ErrorKind::InvalidArgument <==> e is DimensionMismatch
            || e is MissingVector || e is QueryDimension || e is NotAmongResults,
        e.spec_kind() == ErrorKind::InternalError <==> e is OptionsUnwritable || e is FlatLength,
        e.spec_kind() == ErrorKind::DataCorruption <==> e is Truncated || e is TruncatedEntryLayer
            || e is UnsupportedFormat || e is BadOptions || e is ComponentLengthMismatch,
{
}

} // verus!
