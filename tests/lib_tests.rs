use lra_calculator_rust::{get_version_info, NAME, SUPPORTED_EXTENSIONS, VERSION};

#[test]
fn test_version_info() {
    let version_info = get_version_info();
    assert!(version_info.contains("LRA-Calculator-Rust"));
    assert!(version_info.contains("v"));
}

#[test]
fn test_constants() {
    assert!(!VERSION.is_empty());
    assert!(!NAME.is_empty());
    assert_eq!(NAME, "LRA-Calculator-Rust");
}

#[test]
fn test_supported_extensions_export() {
    assert!(SUPPORTED_EXTENSIONS.contains(&"mp3"));
    assert!(SUPPORTED_EXTENSIONS.contains(&"wav"));
    assert_eq!(SUPPORTED_EXTENSIONS.len(), 10);
}

#[test]
fn version_info_is_name_and_version() {
    assert_eq!(get_version_info(), format!("{} v{}", NAME, VERSION));
}
