//! Driver metadata (the archive's `meta.json`) and its validation.

use vstd::prelude::*;

use crate::error::InstallError;
use crate::path::{is_safe_relative_path, safe_relative_path};
use crate::text::{blank, is_blank};

verus! {

/// The contents of a driver's `meta.json`. Fields other than `name` and
/// `library_name` are empty (or zero) where the file leaves them out.
#[derive(Clone, Debug)]
pub struct DriverMetadata {
    pub name: String,
    pub author: String,
    pub package_version: String,
    pub driver_version: String,
    pub description: String,
    pub min_api: u32,
    pub library_name: String,
}

/// An installed driver: the name of its directory and its metadata.
#[derive(Clone, Debug)]
pub struct InstalledDriver {
    pub id: String,
    pub metadata: DriverMetadata,
}

impl DriverMetadata {
    /// A copy of the metadata.
    pub fn duplicate(&self) -> (r: DriverMetadata)
        ensures
            r == *self,
    {
        DriverMetadata {
            name: self.name.clone(),
            author: self.author.clone(),
            package_version: self.package_version.clone(),
            driver_version: self.driver_version.clone(),
            description: self.description.clone(),
            min_api: self.min_api,
            library_name: self.library_name.clone(),
        }
    }
}

impl InstalledDriver {
    /// A copy of the installed driver.
    pub fn duplicate(&self) -> (r: InstalledDriver)
        ensures
            r == *self,
    {
        InstalledDriver { id: self.id.clone(), metadata: self.metadata.duplicate() }
    }
}

/// Checks the metadata of a freshly extracted driver, in this order: it
/// must have a name that is not blank, its library name must be a safe
/// relative path, that library must be present (`library_present`, which
/// the caller finds out for the safe path), and the driver's minimum API
/// level must not exceed the device's.
pub fn validate_metadata(metadata: &DriverMetadata, library_present: bool, device_api: u32) -> (r:
    Result<(), InstallError>)
    ensures
        is_blank(metadata.name@) ==> r == Err::<(), InstallError>(InstallError::MissingName),
        !is_blank(metadata.name@) && !is_safe_relative_path(metadata.library_name@) ==> r == Err::<
            (),
            InstallError,
        >(InstallError::InvalidLibraryName),
        !is_blank(metadata.name@) && is_safe_relative_path(metadata.library_name@)
            && !library_present ==> r == Err::<(), InstallError>(
            InstallError::LibraryMissing { library_name: metadata.library_name },
        ),
        !is_blank(metadata.name@) && is_safe_relative_path(metadata.library_name@)
            && library_present && metadata.min_api > device_api ==> r == Err::<(), InstallError>(
            InstallError::ApiTooNew { required: metadata.min_api, device: device_api },
        ),
        !is_blank(metadata.name@) && is_safe_relative_path(metadata.library_name@)
            && library_present && metadata.min_api <= device_api ==> r == Ok::<(), InstallError>(()),
{
    if blank(metadata.name.as_str()) {
        return Err(InstallError::MissingName);
    }
    if safe_relative_path(metadata.library_name.as_str()).is_none() {
        return Err(InstallError::InvalidLibraryName);
    }
    if !library_present {
        return Err(InstallError::LibraryMissing { library_name: metadata.library_name.clone() });
    }
    if metadata.min_api > device_api {
        return Err(InstallError::ApiTooNew { required: metadata.min_api, device: device_api });
    }
    Ok(())
}

} // verus!
