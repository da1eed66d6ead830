//! Errors raised while splitting or splicing a module.

use vstd::prelude::*;

verus! {

/// The external-section record field at which decoding stopped short.
#[derive(Clone, Copy, PartialEq, Eq, Structural, Debug)]
pub enum RecordField {
    SectionId,
    Prefix,
    ExternalSize,
    DigestAlgo,
    DigestData,
}

/// Everything that can go wrong while splitting or splicing a module.
#[derive(Clone, Copy, PartialEq, Eq, Structural, Debug)]
pub enum SpliceError {
    /// The buffer is too short to hold the eight-byte preamble, or holds
    /// nothing but it where sections are required.
    InputTooSmall,
    /// The preamble does not start with the module magic.
    BadMagic,
    /// A section header cannot be decoded, or a section runs past the end
    /// of the buffer.
    MalformedSection,
    /// A custom section's name does not fit inside its payload.
    MalformedCustomName,
    /// An external-section record stopped short in the named field.
    RecordTruncated(RecordField),
    /// Bytes remain after the last field of an external-section record.
    RecordTrailingData,
    /// The preamble layer flag is unset, so the module holds no external
    /// sections to splice.
    LayerFlagMissing,
    /// A record names a digest algorithm other than "sha256".
    UnsupportedDigestAlgo,
    /// A record carries an empty digest, which addresses no store entry.
    EmptyDigest,
    /// A fragment's length differs from the record's external size.
    SizeMismatch,
    /// The number of fragments handed in differs from the number of
    /// external-section records in the module.
    FragmentCountMismatch,
}

/// The description `message` returns for each error.
pub open spec fn spec_message(e: SpliceError) -> Seq<char> {
    match e {
        SpliceError::InputTooSmall => "input too small"@,
        SpliceError::BadMagic => "input does not start with the module magic"@,
        SpliceError::MalformedSection => "malformed section header"@,
        SpliceError::MalformedCustomName => "malformed custom section name"@,
        SpliceError::RecordTruncated(RecordField::SectionId) => "external section: truncated section_id"@,
        SpliceError::RecordTruncated(RecordField::Prefix) => "external section: truncated prefix"@,
        SpliceError::RecordTruncated(RecordField::ExternalSize) => "external section: truncated external_size"@,
        SpliceError::RecordTruncated(RecordField::DigestAlgo) => "external section: truncated digest_algo"@,
        SpliceError::RecordTruncated(RecordField::DigestData) => "external section: truncated digest_data"@,
        SpliceError::RecordTrailingData => "external section: unexpected trailing data"@,
        SpliceError::LayerFlagMissing => "input doesn't use external sections"@,
        SpliceError::UnsupportedDigestAlgo => "unknown digest algorithm"@,
        SpliceError::EmptyDigest => "digest cannot be empty"@,
        SpliceError::SizeMismatch => "external section data size mismatch"@,
        SpliceError::FragmentCountMismatch => "fragment count does not match record count"@,
    }
}

impl SpliceError {
    /// A short description, for diagnostics outside the library.
    pub fn message(&self) -> (m: &'static str)
        ensures
            m@ == spec_message(*self),
    {
        match self {
            SpliceError::InputTooSmall => "input too small",
            SpliceError::BadMagic => "input does not start with the module magic",
            SpliceError::MalformedSection => "malformed section header",
            SpliceError::MalformedCustomName => "malformed custom section name",
            SpliceError::RecordTruncated(RecordField::SectionId) => "external section: truncated section_id",
            SpliceError::RecordTruncated(RecordField::Prefix) => "external section: truncated prefix",
            SpliceError::RecordTruncated(RecordField::ExternalSize) => "external section: truncated external_size",
            SpliceError::RecordTruncated(RecordField::DigestAlgo) => "external section: truncated digest_algo",
            SpliceError::RecordTruncated(RecordField::DigestData) => "external section: truncated digest_data",
            SpliceError::RecordTrailingData => "external section: unexpected trailing data",
            SpliceError::LayerFlagMissing => "input doesn't use external sections",
            SpliceError::UnsupportedDigestAlgo => "unknown digest algorithm",
            SpliceError::EmptyDigest => "digest cannot be empty",
            SpliceError::SizeMismatch => "external section data size mismatch",
            SpliceError::FragmentCountMismatch => "fragment count does not match record count",
        }
    }
}

} // verus!
