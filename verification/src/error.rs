//! The kinds of failure the reader reports.

use vstd::prelude::*;

verus! {

/// Why an operation on a measurement file was refused.
#[derive(Debug, Clone, Copy, PartialEq, Eq, Structural)]
pub enum MdfError {
    /// The image does not start with the file signature.
    NotAnMdfFile,
    /// The format version is below 4.00.
    UnsupportedVersion,
    /// The tag at a block's start is not the one its schema names.
    BadBlockId,
    /// No schema is known for a block tag.
    SchemaMissing,
    /// A block's link section is shorter than its fields announce.
    LinkCountMismatch,
    /// The offsets declared by a data list differ from the fragments' sizes.
    OffsetMismatch,
    /// A channel's bit count does not fit its data type.
    InvalidBitSize,
    /// A compressed block uses an algorithm other than deflate.
    UnsupportedCompression,
    /// A channel's data type cannot be decoded as asked.
    UnsupportedDataType,
    /// A conversion rule cannot be applied to the given kind of value.
    UnsupportedConversion,
    /// A channel's type is not one the reader knows.
    UnsupportedCnType,
    /// Counts or lengths recorded in the file contradict its contents.
    DataCorrupt,
    /// A read reaches past the end of a payload.
    OutOfRange,
    /// The image ends before the bytes that a block announces.
    IoError,
    /// The links of this kind of block are not bound to names.
    NotImplemented,
    /// A link that must point to a block is nil.
    NilLink,
    /// A channel group has no master channel.
    NoMaster,
}

impl MdfError {
    /// A short description of the failure.
    pub fn message(&self) -> (s: &'static str)
        ensures
            s@ == self.spec_message(),
    {
        match self {
            MdfError::NotAnMdfFile => "not a mdf file",
            MdfError::UnsupportedVersion => "unsupported version",
            MdfError::BadBlockId => "Invalid block id",
            MdfError::SchemaMissing => "no schema for this block type",
            MdfError::LinkCountMismatch => "Invalid link count",
            MdfError::OffsetMismatch => "Offset not right for DL links.",
            MdfError::InvalidBitSize => "Invalid bit size.",
            MdfError::UnsupportedCompression => "Unsupported compression type",
            MdfError::UnsupportedDataType => "Invalid data type.",
            MdfError::UnsupportedConversion => "conversion not supported for this value",
            MdfError::UnsupportedCnType => "cn_type not supported",
            MdfError::DataCorrupt => "Data corrupted",
            MdfError::OutOfRange => "Virtual offset out of range.",
            MdfError::IoError => "failed to fill whole buffer",
            MdfError::NotImplemented => "Not Implemented",
            MdfError::NilLink => "Invalid offset",
            MdfError::NoMaster => "Cannot find master channel",
        }
    }

    /// The text that `message` returns.
    pub open spec fn spec_message(&self) -> Seq<char> {
        match self {
            MdfError::NotAnMdfFile => "not a mdf file"@,
            MdfError::UnsupportedVersion => "unsupported version"@,
            MdfError::BadBlockId => "Invalid block id"@,
            MdfError::SchemaMissing => "no schema for this block type"@,
            MdfError::LinkCountMismatch => "Invalid link count"@,
            MdfError::OffsetMismatch => "Offset not right for DL links."@,
            MdfError::InvalidBitSize => "Invalid bit size."@,
            MdfError::UnsupportedCompression => "Unsupported compression type"@,
            MdfError::UnsupportedDataType => "Invalid data type."@,
            MdfError::UnsupportedConversion => "conversion not supported for this value"@,
            MdfError::UnsupportedCnType => "cn_type not supported"@,
            MdfError::DataCorrupt => "Data corrupted"@,
            MdfError::OutOfRange => "Virtual offset out of range."@,
            MdfError::IoError => "failed to fill whole buffer"@,
            MdfError::NotImplemented => "Not Implemented"@,
            MdfError::NilLink => "Invalid offset"@,
            MdfError::NoMaster => "Cannot find master channel"@,
        }
    }
}

} // verus!
