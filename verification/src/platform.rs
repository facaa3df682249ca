//! Whether the device can use custom drivers, its API level, and which
//! driver to load at start-up.

use vstd::prelude::*;

use crate::listing::{find_driver, first_with_id};
use crate::metadata::InstalledDriver;

verus! {

/// Custom drivers work only on 64-bit ARM Android devices that have an
/// Adreno GPU (the `/dev/kgsl-3d0` device node).
pub fn supports_custom_drivers(android_aarch64: bool, kgsl_device_present: bool) -> (r: bool)
    ensures
        r == (android_aarch64 && kgsl_device_present),
{
    android_aarch64 && kgsl_device_present
}

/// The device's Android API level from the value the platform reports,
/// with a negative report (an error) read as 0.
pub fn android_api_level(reported: i32) -> (r: u32)
    ensures
        r == (if reported < 0 {
            0
        } else {
            reported as u32
        }),
{
    if reported < 0 {
        0
    } else {
        reported as u32
    }
}

/// What to do at start-up about the selected driver.
#[derive(Debug, Clone, Copy, PartialEq, Eq)]
pub enum LoadDecision {
    /// No custom driver is selected: use the system driver.
    Disabled,
    /// A driver is selected, but the device cannot use custom drivers.
    Unsupported,
    /// The selected driver is not installed.
    NotInstalled,
    /// The directory of the application's native libraries is unknown.
    NoLibraryDirectory,
    /// Load the installed driver at this position.
    Load(usize),
}

/// Decides what to do about the selected driver `driver_id`, in this
/// order: nothing is selected; the device is unsupported; the driver is
/// not among `installed`; the native library directory is unknown;
/// otherwise load the first installed driver with that identifier.
pub fn load_selected(
    driver_id: &str,
    supported: bool,
    installed: &Vec<InstalledDriver>,
    native_library_dir: Option<&str>,
) -> (r: LoadDecision)
    ensures
        driver_id@.len() == 0 ==> r == LoadDecision::Disabled,
        driver_id@.len() > 0 && !supported ==> r == LoadDecision::Unsupported,
        driver_id@.len() > 0 && supported && first_with_id(installed@, driver_id@) is None ==> r
            == LoadDecision::NotInstalled,
        driver_id@.len() > 0 && supported && first_with_id(installed@, driver_id@) is Some
            && native_library_dir is None ==> r == LoadDecision::NoLibraryDirectory,
        driver_id@.len() > 0 && supported && native_library_dir is Some ==> (first_with_id(
            installed@,
            driver_id@,
        ) matches Some(k) ==> r == LoadDecision::Load(k as usize)),
        r matches LoadDecision::Load(k) ==> {
            &&& driver_id@.len() > 0
            &&& supported
            &&& native_library_dir is Some
            &&& k < installed@.len()
            &&& installed@[k as int].id@ == driver_id@
            &&& forall|q: int| 0 <= q < k ==> (#[trigger] installed@[q]).id@ != driver_id@
        },
{
    if driver_id.is_empty() {
        return LoadDecision::Disabled;
    }
    if !supported {
        return LoadDecision::Unsupported;
    }
    let k = match find_driver(installed, driver_id) {
        Some(k) => k,
        None => {
            return LoadDecision::NotInstalled;
        },
    };
    if native_library_dir.is_none() {
        return LoadDecision::NoLibraryDirectory;
    }
    LoadDecision::Load(k)
}

} // verus!
