//! The error kinds that version parsing, incrementing and file patching
//! can report.

use vstd::prelude::*;

verus! {

/// Every way a bump operation can fail, apart from the I/O failures that the
/// surrounding program reports on its own.
#[derive(Clone, Copy, Debug, PartialEq, Eq, Structural)]
pub enum BumpError {
    /// The `+`/`.` structure of the version string is malformed: a separator
    /// is absent, repeated, or delimits an empty segment.
    InvalidVersionString,
    /// The build-code segment is not a decimal integer in range.
    InvalidVersionCode,
    /// The major segment is not a decimal integer in range.
    InvalidMajorVersion,
    /// The minor segment is not a decimal integer in range.
    InvalidMinorVersion,
    /// The patch segment is not a decimal integer in range.
    InvalidPatchVersion,
    /// An increment would push a field past its maximum.
    Overflow,
    /// No line of the file starts with the version prefix.
    NotFound,
}

impl BumpError {
    /// The one-line, human-readable message for this error kind.
    pub open spec fn message_spec(self) -> Seq<char> {
        match self {
            BumpError::InvalidVersionString => "invalid version string"@,
            BumpError::InvalidVersionCode => "invalid version code"@,
            BumpError::InvalidMajorVersion => "invalid major version"@,
            BumpError::InvalidMinorVersion => "invalid minor version"@,
            BumpError::InvalidPatchVersion => "invalid patch version"@,
            BumpError::Overflow => "version overflow"@,
            BumpError::NotFound => "version not found"@,
        }
    }

    /// The message a caller shows for this error kind.
    pub fn message(&self) -> (r: &'static str)
        ensures
            r@ == self.message_spec(),
    {
        match self {
            BumpError::InvalidVersionString => "invalid version string",
            BumpError::InvalidVersionCode => "invalid version code",
            BumpError::InvalidMajorVersion => "invalid major version",
            BumpError::InvalidMinorVersion => "invalid minor version",
            BumpError::InvalidPatchVersion => "invalid patch version",
            BumpError::Overflow => "version overflow",
            BumpError::NotFound => "version not found",
        }
    }
}

} // verus!
