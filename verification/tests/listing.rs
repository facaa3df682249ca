use custom_driver::listing::{
    details_for_index, driver_details, driver_list_model, find_driver, select_installed,
    DriverCandidate,
};
use custom_driver::metadata::{DriverMetadata, InstalledDriver};
use custom_driver::platform::{android_api_level, load_selected, supports_custom_drivers, LoadDecision};

fn meta(name: &str) -> DriverMetadata {
    DriverMetadata {
        name: name.to_string(),
        author: String::new(),
        package_version: String::new(),
        driver_version: String::new(),
        description: String::new(),
        min_api: 0,
        library_name: "lib.so".to_string(),
    }
}

fn candidate(id: &str, name: &str) -> DriverCandidate {
    DriverCandidate { id: id.to_string(), is_dir: true, metadata: Some(meta(name)), library_present: true }
}

fn driver(id: &str, name: &str) -> InstalledDriver {
    InstalledDriver { id: id.to_string(), metadata: meta(name) }
}

fn ids(v: &[InstalledDriver]) -> Vec<&str> {
    v.iter().map(|d| d.id.as_str()).collect()
}

#[test]
fn listing_filters_candidates() {
    let mut not_dir = candidate("file", "File");
    not_dir.is_dir = false;
    let mut no_meta = candidate("nometa", "x");
    no_meta.metadata = None;
    let mut missing = candidate("missing", "Missing");
    missing.library_present = false;
    let mut unsafe_lib = candidate("unsafe", "Unsafe");
    unsafe_lib.metadata.as_mut().unwrap().library_name = "../lib.so".to_string();
    let good = candidate("good", "Good");
    let r = select_installed(&vec![not_dir, no_meta, missing, unsafe_lib, good]);
    assert_eq!(ids(&r), vec!["good"]);
}

#[test]
fn listing_orders_by_lowercase_name() {
    let r = select_installed(&vec![
        candidate("b", "Beta"),
        candidate("a", "alpha"),
        candidate("g", "Gamma"),
    ]);
    assert_eq!(ids(&r), vec!["a", "b", "g"]);
}

#[test]
fn listing_is_stable() {
    let r = select_installed(&vec![
        candidate("z1", "Same"),
        candidate("a", "Other"),
        candidate("z2", "SAME"),
        candidate("z3", "same"),
    ]);
    assert_eq!(ids(&r), vec!["a", "z1", "z2", "z3"]);
}

#[test]
fn finding_drivers() {
    let ds = vec![driver("x", "X"), driver("y", "Y"), driver("x", "X2")];
    assert_eq!(find_driver(&ds, "x"), Some(0));
    assert_eq!(find_driver(&ds, "y"), Some(1));
    assert_eq!(find_driver(&ds, "z"), None);
}

#[test]
fn details_text() {
    let mut m = meta("Turnip");
    assert_eq!(driver_details(&m), "");
    m.author = "Mesa".to_string();
    m.package_version = "1.0".to_string();
    assert_eq!(driver_details(&m), "Author: Mesa\nVersion: 1.0");
    m.driver_version = "24.1".to_string();
    m.description = "Open-source Adreno driver".to_string();
    assert_eq!(driver_details(&m), "Author: Mesa\nVersion: 24.1\nOpen-source Adreno driver");
    m.author = String::new();
    m.driver_version = String::new();
    m.package_version = String::new();
    assert_eq!(driver_details(&m), "Open-source Adreno driver");
}

#[test]
fn details_for_rows() {
    let mut d = driver("turnip", "Turnip");
    d.metadata.author = "Mesa".to_string();
    let installed = vec![d];
    let rows = vec![String::new(), "turnip".to_string(), "gone".to_string()];
    assert_eq!(
        details_for_index(&rows, 0, &installed),
        "Uses the Vulkan driver supplied by the device manufacturer."
    );
    assert_eq!(details_for_index(&rows, 1, &installed), "Author: Mesa");
    assert_eq!(details_for_index(&rows, 2, &installed), "");
    assert_eq!(details_for_index(&rows, 3, &installed), "");
    assert_eq!(details_for_index(&rows, -1, &installed), "");
}

#[test]
fn picker_model() {
    let mut alpha = driver("a", "Alpha");
    alpha.metadata.author = "Mesa".to_string();
    let ds = vec![alpha, driver("b", "Beta")];
    let m = driver_list_model(&ds, "b");
    assert_eq!(m.names, vec!["System Vulkan driver", "Alpha", "Beta"]);
    assert_eq!(m.ids, vec!["", "a", "b"]);
    assert_eq!(m.selected_index, 2);
    assert_eq!(driver_list_model(&ds, "").selected_index, 0);
    assert_eq!(driver_list_model(&ds, "zzz").selected_index, 0);
    let model = driver_list_model(&ds, "a");
    assert_eq!(details_for_index(&model.ids, model.selected_index, &ds), "Author: Mesa");
    let none = driver_list_model(&ds, "zzz");
    assert_eq!(
        details_for_index(&none.ids, none.selected_index, &ds),
        "Uses the Vulkan driver supplied by the device manufacturer."
    );
    assert_eq!(model.selected_index, 1);
}

#[test]
fn platform_decisions() {
    assert!(supports_custom_drivers(true, true));
    assert!(!supports_custom_drivers(true, false));
    assert!(!supports_custom_drivers(false, true));
    assert_eq!(android_api_level(-5), 0);
    assert_eq!(android_api_level(33), 33);
    let ds = vec![driver("a", "Alpha"), driver("b", "Beta")];
    assert_eq!(load_selected("", true, &ds, Some("/lib")), LoadDecision::Disabled);
    assert_eq!(load_selected("b", false, &ds, Some("/lib")), LoadDecision::Unsupported);
    assert_eq!(load_selected("c", true, &ds, Some("/lib")), LoadDecision::NotInstalled);
    assert_eq!(load_selected("b", true, &ds, None), LoadDecision::NoLibraryDirectory);
    assert_eq!(load_selected("b", true, &ds, Some("/lib")), LoadDecision::Load(1));
}
