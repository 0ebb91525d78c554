//! The error taxonomy shared by every operation of the library.

use vstd::prelude::*;

verus! {

/// Why an operation failed.
///
/// Every pipeline stage reports a typed failure to its caller; nothing in
/// the library panics or aborts.
#[derive(Clone, Copy, PartialEq, Eq, Structural, Debug)]
pub enum PkgError {
    /// A network transport failure (connection refused, timeout).
    NetworkError,
    /// The direct archive probe answered with a non-success status.
    PackageNotFound,
    /// The mirror's directory listing could not be read as markup.
    IndexFormatError,
    /// The archive's compression framing or an entry header is malformed.
    CorruptArchive,
    /// An archive entry's path would escape the install root.
    UnsafePath,
    /// A package asked to be removed is not in the manifest.
    NotInstalled,
}

impl PkgError {
    /// A short human-readable description of the failure.
    pub fn message(&self) -> (r: &'static str)
        ensures
            r@.len() > 0,
            self is NetworkError ==> r@ == "network failure while contacting the mirror"@,
            self is PackageNotFound ==> r@ == "no archive with that name on the mirror"@,
            self is IndexFormatError ==> r@ == "the mirror listing could not be parsed"@,
            self is CorruptArchive ==> r@ == "the archive is corrupt"@,
            self is UnsafePath ==> r@ == "an archive entry would escape the install root"@,
            self is NotInstalled ==> r@ == "that package is not installed"@,
    {
        proof {
            reveal_strlit("network failure while contacting the mirror");
            reveal_strlit("no archive with that name on the mirror");
            reveal_strlit("the mirror listing could not be parsed");
            reveal_strlit("the archive is corrupt");
            reveal_strlit("an archive entry would escape the install root");
            reveal_strlit("that package is not installed");
        }
        match self {
            PkgError::NetworkError => "network failure while contacting the mirror",
            PkgError::PackageNotFound => "no archive with that name on the mirror",
            PkgError::IndexFormatError => "the mirror listing could not be parsed",
            PkgError::CorruptArchive => "the archive is corrupt",
            PkgError::UnsafePath => "an archive entry would escape the install root",
            PkgError::NotInstalled => "that package is not installed",
        }
    }
}

} // verus!
