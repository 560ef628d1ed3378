use cream::paths::validate_path;
use tempfile::TempDir;

/// A home directory holding a `Desktop` directory. The guards remove both
/// when dropped.
fn home_with_desktop() -> (TempDir, TempDir, String) {
    let home = tempfile::tempdir().unwrap();
    let desktop = tempfile::Builder::new()
        .prefix("Desktop")
        .rand_bytes(0)
        .tempdir_in(home.path())
        .unwrap();
    let path = home.path().to_str().unwrap().to_string();
    (desktop, home, path)
}

#[test]
fn lib_test_validate_path_valid() {
    let (_d, _h, home) = home_with_desktop();
    let path = "~/Desktop";
    let expected_size: usize = path.len();
    assert_eq!(validate_path(path, Some(&home)).unwrap(), expected_size);
}

#[test]
fn lib_test_validate_path_invalid_multiple_tilde() {
    let (_d, _h, home) = home_with_desktop();
    let path = "~~/Desktop";
    assert!(validate_path(path, Some(&home)).is_none());
}

#[test]
fn lib_test_validate_path_invalid_dne() {
    let (_d, _h, home) = home_with_desktop();
    let path = "~/abc/def";
    assert!(validate_path(path, Some(&home)).is_none());
}

#[test]
fn lib_test_validate_path_trailing_punc_single() {
    let (_d, _h, home) = home_with_desktop();
    let path = "~/Desktop,";
    let expected_size: usize = "~/Desktop".len();
    assert_eq!(validate_path(path, Some(&home)).unwrap(), expected_size);
}

#[test]
fn lib_test_validate_path_trailing_punc_multiple() {
    let (_d, _h, home) = home_with_desktop();
    let path = "~/Desktop,!";
    let expected_size: usize = "~/Desktop".len();
    assert_eq!(validate_path(path, Some(&home)).unwrap(), expected_size);
}

#[test]
fn main_test_validate_path_valid() {
    let (_d, _h, home) = home_with_desktop();
    let path = "~/Desktop";
    let expected_size: usize = path.len();
    assert_eq!(validate_path(path, Some(&home)).unwrap(), expected_size);
}

#[test]
fn main_test_validate_path_invalid_multiple_tilde() {
    let (_d, _h, home) = home_with_desktop();
    let path = "~~/Desktop";
    assert!(validate_path(path, Some(&home)).is_none());
}

#[test]
fn main_test_validate_path_invalid_dne() {
    let (_d, _h, home) = home_with_desktop();
    let path = "~/abc/def";
    assert!(validate_path(path, Some(&home)).is_none());
}

#[test]
fn main_test_validate_path_trailing_punc_single() {
    let (_d, _h, home) = home_with_desktop();
    let path = "~/Desktop,";
    let expected_size: usize = "~/Desktop".len();
    assert_eq!(validate_path(path, Some(&home)).unwrap(), expected_size);
}

#[test]
fn main_test_validate_path_trailing_punc_multiple() {
    let (_d, _h, home) = home_with_desktop();
    let path = "~/Desktop,!";
    let expected_size: usize = "~/Desktop".len();
    assert_eq!(validate_path(path, Some(&home)).unwrap(), expected_size);
}
