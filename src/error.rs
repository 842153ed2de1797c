use vstd::prelude::*;

verus! {

/// Every way in which a conversion can fail.
#[derive(Debug, Clone, Copy, PartialEq, Eq, Structural)]
pub enum Error {
    /// The input ended in the middle of a header, a tag or a varint.
    Truncated,
    /// A decoded value does not fit the 32-bit domain it is stored in.
    Overflow,
    /// A header field lies outside what the format admits.
    MalformedHeader,
    /// A classification tag other than 0, 1 or 2.
    InvalidTag,
    /// One of the four columnar metadata keys is absent or unparseable.
    MissingMetadata,
    /// The metadata flags name no tier.
    InvalidMetadata,
    /// The index string is neither `num` nor `num/den`.
    InvalidIndex,
    /// A row group holds fewer columns than the tier's schema.
    ColumnsMissing,
    /// A columnar shard whose dimension differs from the shards before it.
    DimensionMismatch,
    /// Repetition levels that do not group coordinates into records.
    InvalidLevels,
    /// A PALP header line does not have the expected shape.
    InvalidHeader,
    /// The PALP input ended before all coordinate rows of a polytope.
    IncompleteInput,
    /// A PALP coordinate row has the wrong number of entries.
    InvalidCoordinateCount,
    /// A PALP coordinate is not an integer.
    InvalidNumber,
    /// Two PALP polytopes of different dimensions.
    VaryingDimension,
    /// A PALP header whose vertex count disagrees with its matrix.
    InvalidVertexCount,
    /// A PALP input without any polytope.
    NoPolytopes,
}

impl Error {
    /// A short description naming the violated expectation.
    pub fn description(&self) -> &'static str {
        match self {
            Error::Truncated => "truncated input",
            Error::Overflow => "value exceeds 32 bits",
            Error::MalformedHeader => "malformed header",
            Error::InvalidTag => "invalid classification tag",
            Error::MissingMetadata => "missing file metadata",
            Error::InvalidMetadata => "invalid metadata",
            Error::InvalidIndex => "invalid index",
            Error::ColumnsMissing => "columns missing",
            Error::DimensionMismatch => "dimension mismatch between shards",
            Error::InvalidLevels => "invalid repetition levels",
            Error::InvalidHeader => "invalid header",
            Error::IncompleteInput => "incomplete input",
            Error::InvalidCoordinateCount => "invalid coordinate count",
            Error::InvalidNumber => "invalid number",
            Error::VaryingDimension => "varying dimension",
            Error::InvalidVertexCount => "invalid vertex count",
            Error::NoPolytopes => "no polytopes read",
        }
    }
}

} // verus!
