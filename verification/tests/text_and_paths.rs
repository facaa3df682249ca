use std::path::{Component, Path};

use custom_driver::path::{drivers_directory, join_path, safe_relative_path};
use custom_driver::text::{ascii_alphanumeric, blank, chars_of, id_char, u64_to_decimal, whitespace};

#[test]
fn decimal_formatting() {
    assert_eq!(u64_to_decimal(0), "0");
    assert_eq!(u64_to_decimal(7), "7");
    assert_eq!(u64_to_decimal(10), "10");
    assert_eq!(u64_to_decimal(31), "31");
    assert_eq!(u64_to_decimal(u64::MAX), "18446744073709551615");
}

#[test]
fn blank_names() {
    assert!(blank(""));
    assert!(blank("   "));
    assert!(blank("\t\n\u{a0}\u{3000}"));
    assert!(!blank(" a "));
    assert!(!blank("\u{200b}"));
}

#[test]
fn chars_round_trip() {
    let v = chars_of("Aé😀");
    assert_eq!(v, vec!['A', 'é', '😀']);
}

#[test]
fn joining_paths() {
    assert_eq!(join_path("/data/config", "gpu_drivers"), "/data/config/gpu_drivers");
    assert_eq!(join_path("/data/config/", "gpu_drivers"), "/data/config/gpu_drivers");
    assert_eq!(join_path("", "gpu_drivers"), "gpu_drivers");
    assert_eq!(join_path("/data", "/abs/lib.so"), "/abs/lib.so");
    assert_eq!(
        Path::new("/data/config").join("gpu_drivers").to_str().unwrap(),
        join_path("/data/config", "gpu_drivers")
    );
}

#[test]
fn drivers_directory_is_inside_config() {
    assert_eq!(drivers_directory("/home/u/.config/emulator"), "/home/u/.config/emulator/gpu_drivers");
}

#[test]
fn safe_relative_paths() {
    assert_eq!(safe_relative_path("libvulkan_freedreno.so"), Some("libvulkan_freedreno.so"));
    assert_eq!(safe_relative_path("lib/libvulkan.so"), Some("lib/libvulkan.so"));
    assert_eq!(safe_relative_path("a/./b"), Some("a/./b"));
    assert_eq!(safe_relative_path("a//b/"), Some("a//b/"));
    assert_eq!(safe_relative_path(".hidden"), Some(".hidden"));
    assert_eq!(safe_relative_path("..x"), Some("..x"));
    assert_eq!(safe_relative_path(""), None);
    assert_eq!(safe_relative_path("/lib.so"), None);
    assert_eq!(safe_relative_path("."), None);
    assert_eq!(safe_relative_path("./lib.so"), None);
    assert_eq!(safe_relative_path(".."), None);
    assert_eq!(safe_relative_path("../lib.so"), None);
    assert_eq!(safe_relative_path("a/../b"), None);
    assert_eq!(safe_relative_path("a/.."), None);
}

#[test]
fn safe_relative_paths_agree_with_std_components() {
    let samples = [
        "", ".", "..", "./a", "a/.", "a/./b", "a/../b", "/a", "a//b", "a/", ".a", "a..", "...",
        "a/..b", "..a/b", "a/b/..", "x/./../y",
    ];
    for s in samples {
        let p = Path::new(s);
        let expected = !p.as_os_str().is_empty()
            && p.components().all(|c| matches!(c, Component::Normal(_)));
        assert_eq!(safe_relative_path(s).is_some(), expected, "path {s:?}");
    }
}

#[test]
fn character_classes_agree_with_std() {
    for c in (0u32..=0x10FFFF).filter_map(char::from_u32) {
        assert_eq!(whitespace(c), c.is_whitespace(), "char {:?}", c);
        assert_eq!(ascii_alphanumeric(c), c.is_ascii_alphanumeric(), "char {:?}", c);
        assert_eq!(
            id_char(c),
            c.is_ascii_alphanumeric() || matches!(c, '-' | '_' | '.'),
            "char {:?}",
            c
        );
    }
}
