//! Installation, listing and selection rules for custom GPU (Vulkan) drivers.
//!
//! The library holds the decisions: which archive entries are acceptable,
//! which driver metadata is valid, how driver identifiers are formed and
//! checked, which installed drivers are listed and in what order, and what
//! the driver picker shows. File-system access, archive decoding and JSON
//! decoding are done by the caller, which hands the results to these
//! functions as plain values.

pub mod text;
pub mod path;
pub mod driver_id;
pub mod error;
pub mod metadata;
pub mod archive;
pub mod listing;
pub mod platform;

pub use metadata::{DriverMetadata, InstalledDriver};
pub use path::drivers_directory;
pub use platform::{load_selected, supports_custom_drivers};
