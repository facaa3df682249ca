use custom_driver::archive::{
    check_entry, check_entry_count, ArchiveEntry, EntryKind, MAX_DRIVER_FILES, MAX_DRIVER_SIZE,
};
use custom_driver::error::InstallError;
use custom_driver::metadata::{validate_metadata, DriverMetadata};

fn meta(name: &str, library: &str, min_api: u32) -> DriverMetadata {
    DriverMetadata {
        name: name.to_string(),
        author: String::new(),
        package_version: String::new(),
        driver_version: String::new(),
        description: String::new(),
        min_api,
        library_name: library.to_string(),
    }
}

fn entry(size: u64, mode: Option<u32>, name: Option<&str>, is_dir: bool) -> ArchiveEntry {
    ArchiveEntry { size, unix_mode: mode, enclosed_name: name.map(|s| s.to_string()), is_dir }
}

#[test]
fn entry_counts() {
    assert!(check_entry_count(0).is_ok());
    assert!(check_entry_count(MAX_DRIVER_FILES).is_ok());
    assert!(matches!(check_entry_count(MAX_DRIVER_FILES + 1), Err(InstallError::TooManyFiles)));
}

#[test]
fn entries_accepted() {
    let r = check_entry(10, &entry(5, Some(0o100644), Some("lib.so"), false)).unwrap();
    assert_eq!(r, (15, EntryKind::File));
    let r = check_entry(0, &entry(0, None, Some("dir/"), true)).unwrap();
    assert_eq!(r, (0, EntryKind::Directory));
    let r = check_entry(MAX_DRIVER_SIZE - 1, &entry(1, None, Some("a"), false)).unwrap();
    assert_eq!(r, (MAX_DRIVER_SIZE, EntryKind::File));
}

#[test]
fn entries_refused() {
    assert!(matches!(
        check_entry(MAX_DRIVER_SIZE, &entry(1, None, Some("a"), false)),
        Err(InstallError::TooLarge)
    ));
    assert!(matches!(
        check_entry(1, &entry(u64::MAX, None, Some("a"), false)),
        Err(InstallError::TooLarge)
    ));
    assert!(matches!(
        check_entry(0, &entry(1, Some(0o120777), Some("link"), false)),
        Err(InstallError::SymbolicLink)
    ));
    assert!(matches!(
        check_entry(0, &entry(1, Some(0o100644), None, false)),
        Err(InstallError::UnsafePath)
    ));
    // The size limit is checked before the link and the name.
    assert!(matches!(
        check_entry(MAX_DRIVER_SIZE, &entry(1, Some(0o120777), None, false)),
        Err(InstallError::TooLarge)
    ));
}

#[test]
fn metadata_checks() {
    assert!(validate_metadata(&meta("Turnip", "lib.so", 30), true, 33).is_ok());
    assert!(validate_metadata(&meta("Turnip", "lib.so", 33), true, 33).is_ok());
    assert!(matches!(
        validate_metadata(&meta("  ", "lib.so", 0), true, 33),
        Err(InstallError::MissingName)
    ));
    assert!(matches!(
        validate_metadata(&meta("Turnip", "../lib.so", 0), true, 33),
        Err(InstallError::InvalidLibraryName)
    ));
    match validate_metadata(&meta("Turnip", "lib.so", 0), false, 33) {
        Err(InstallError::LibraryMissing { library_name }) => assert_eq!(library_name, "lib.so"),
        _ => panic!("expected a missing library"),
    }
    assert!(matches!(
        validate_metadata(&meta("Turnip", "lib.so", 34), true, 33),
        Err(InstallError::ApiTooNew { required: 34, device: 33 })
    ));
    // On a device that reports no API level every minimum above 0 fails.
    assert!(matches!(
        validate_metadata(&meta("Turnip", "lib.so", 1), true, 0),
        Err(InstallError::ApiTooNew { required: 1, device: 0 })
    ));
}

#[test]
fn error_messages() {
    assert_eq!(InstallError::TooManyFiles.message(), "Driver archive contains too many files");
    assert_eq!(InstallError::TooLarge.message(), "Driver archive is too large");
    assert_eq!(InstallError::SymbolicLink.message(), "Driver archive contains a symbolic link");
    assert_eq!(InstallError::UnsafePath.message(), "Driver archive contains an unsafe path");
    assert_eq!(InstallError::MissingName.message(), "Driver metadata does not contain a name");
    assert_eq!(
        InstallError::InvalidLibraryName.message(),
        "Driver metadata contains an invalid library name"
    );
    assert_eq!(
        InstallError::LibraryMissing { library_name: "vulkan.ad07XX.so".to_string() }.message(),
        "Driver library 'vulkan.ad07XX.so' is missing"
    );
    assert_eq!(
        InstallError::ApiTooNew { required: 34, device: 30 }.message(),
        "Driver requires Android API 34, but this device uses API 30"
    );
}
