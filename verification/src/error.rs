//! Why an installation is refused, and the message shown for it.

use vstd::prelude::*;

use crate::text::{decimal, u64_to_decimal};

verus! {

/// A reason for refusing a driver archive.
#[derive(Debug)]
pub enum InstallError {
    /// The archive holds more than the allowed number of entries.
    TooManyFiles,
    /// The entries' sizes add up to more than the allowed total.
    TooLarge,
    /// An entry is a symbolic link.
    SymbolicLink,
    /// An entry's name would lead outside the extraction directory.
    UnsafePath,
    /// The metadata's name is empty or white space only.
    MissingName,
    /// The metadata's library name is not a safe relative path.
    InvalidLibraryName,
    /// The library that the metadata names is not in the archive.
    LibraryMissing { library_name: String },
    /// The driver needs a newer Android API level than the device has.
    ApiTooNew { required: u32, device: u32 },
}

/// The message for each refusal.
pub open spec fn message_text(e: InstallError) -> Seq<char> {
    match e {
        InstallError::TooManyFiles => "Driver archive contains too many files"@,
        InstallError::TooLarge => "Driver archive is too large"@,
        InstallError::SymbolicLink => "Driver archive contains a symbolic link"@,
        InstallError::UnsafePath => "Driver archive contains an unsafe path"@,
        InstallError::MissingName => "Driver metadata does not contain a name"@,
        InstallError::InvalidLibraryName => "Driver metadata contains an invalid library name"@,
        InstallError::LibraryMissing { library_name } => "Driver library '"@ + library_name@
            + "' is missing"@,
        InstallError::ApiTooNew { required, device } => "Driver requires Android API "@ + decimal(
            required as nat,
        ) + ", but this device uses API "@ + decimal(device as nat),
    }
}

impl InstallError {
    /// The message shown to the user for this refusal.
    pub fn message(&self) -> (r: String)
        ensures
            r@ == message_text(*self),
    {
        match self {
            InstallError::TooManyFiles => String::from_str("Driver archive contains too many files"),
            InstallError::TooLarge => String::from_str("Driver archive is too large"),
            InstallError::SymbolicLink => String::from_str(
                "Driver archive contains a symbolic link",
            ),
            InstallError::UnsafePath => String::from_str("Driver archive contains an unsafe path"),
            InstallError::MissingName => String::from_str(
                "Driver metadata does not contain a name",
            ),
            InstallError::InvalidLibraryName => String::from_str(
                "Driver metadata contains an invalid library name",
            ),
            InstallError::LibraryMissing { library_name } => {
                let mut r = String::from_str("Driver library '");
                r.append(library_name.as_str());
                r.append("' is missing");
                r
            },
            InstallError::ApiTooNew { required, device } => {
                let mut r = String::from_str("Driver requires Android API ");
                let a = u64_to_decimal(*required as u64);
                r.append(a.as_str());
                r.append(", but this device uses API ");
                let b = u64_to_decimal(*device as u64);
                r.append(b.as_str());
                r
            },
        }
    }
}

} // verus!
