use custom_driver::driver_id::{
    driver_id_base, driver_id_candidate, is_taken_name, safe_driver_id, unique_driver_id,
};

#[test]
fn safe_ids() {
    assert_eq!(safe_driver_id("Turnip-v24.1"), Some("Turnip-v24.1"));
    assert_eq!(safe_driver_id("a_b.c-d"), Some("a_b.c-d"));
    assert_eq!(safe_driver_id("..."), Some("..."));
    assert_eq!(safe_driver_id(""), None);
    assert_eq!(safe_driver_id("."), None);
    assert_eq!(safe_driver_id(".."), None);
    assert_eq!(safe_driver_id("a/b"), None);
    assert_eq!(safe_driver_id("a b"), None);
    assert_eq!(safe_driver_id("é"), None);
}

#[test]
fn id_bases() {
    assert_eq!(driver_id_base("Turnip v24.1 (Mesa)"), "Turnip-v24.1--Mesa");
    assert_eq!(driver_id_base("...---"), "driver");
    assert_eq!(driver_id_base(""), "driver");
    assert_eq!(driver_id_base("  Qualcomm 762  "), "Qualcomm-762");
    assert_eq!(driver_id_base("Ünïcode"), "n-code");
    assert_eq!(driver_id_base("../../etc"), "etc");
    let long: String = "x".repeat(100);
    assert_eq!(driver_id_base(&long), "x".repeat(80));
    let trailing = format!("{}-{}", "y".repeat(79), "z");
    assert_eq!(driver_id_base(&trailing), format!("{}-", "y".repeat(79)));
}

#[test]
fn id_candidates() {
    assert_eq!(driver_id_candidate("Turnip", None), "Turnip");
    assert_eq!(driver_id_candidate("Turnip", Some(2)), "Turnip-2");
    assert_eq!(driver_id_candidate("Turnip", Some(12)), "Turnip-12");
}

#[test]
fn generated_ids_pass_the_removal_check() {
    for name in ["", "...", "a b", "Ünïcode", "../x", "Turnip v24"] {
        let base = driver_id_base(name);
        assert!(safe_driver_id(&base).is_some());
        for suffix in [None, Some(2), Some(3), Some(99)] {
            let c = driver_id_candidate(&base, suffix);
            assert!(safe_driver_id(&c).is_some());
        }
    }
}

#[test]
fn unique_ids() {
    let none: Vec<String> = Vec::new();
    assert_eq!(unique_driver_id("Turnip v24", &none), "Turnip-v24");
    let taken = vec!["Turnip-v24".to_string(), "other".to_string(), "Turnip-v24-2".to_string()];
    assert_eq!(unique_driver_id("Turnip v24", &taken), "Turnip-v24-3");
    let taken = vec!["driver".to_string()];
    assert_eq!(unique_driver_id("???", &taken), "driver-2");
    let taken: Vec<String> = (0..5)
        .map(|i| if i == 0 { "x".to_string() } else { format!("x-{}", i + 1) })
        .collect();
    assert_eq!(unique_driver_id("x", &taken), "x-6");
}

#[test]
fn taken_names() {
    let taken = vec!["a".to_string(), "b".to_string()];
    assert!(is_taken_name(&taken, &"b".to_string()));
    assert!(!is_taken_name(&taken, &"c".to_string()));
}
