use riverdeck_core::path::is_safe_relative_path;
use riverdeck_core::profiles::validate_profile_id;

#[test]
fn safe_relative_path_rejects_traversal_and_absolute() {
    assert!(is_safe_relative_path("foo/bar.exe"));
    assert!(is_safe_relative_path("assets/propertyInspector/index.html"));

    assert!(!is_safe_relative_path("../evil"));
    assert!(!is_safe_relative_path("foo/../../evil"));
    assert!(!is_safe_relative_path("/etc/passwd"));
}

#[test]
fn profile_id_validation_allows_folders_but_not_traversal() {
    assert!(validate_profile_id("Default").is_ok());
    assert!(validate_profile_id("Folder/Profile").is_ok());

    assert!(validate_profile_id("").is_err());
    assert!(validate_profile_id("../evil").is_err());
    assert!(validate_profile_id("Folder/../evil").is_err());
    assert!(validate_profile_id("/abs").is_err());
}
