use cream::paths::expand_tilde;
use cream::scan::extract_path_matches;
use tempfile::TempDir;

/// A home directory holding a `Desktop` directory. The guards remove both
/// when dropped.
fn home_with_desktop() -> (TempDir, TempDir, String) {
    let home = tempfile::tempdir().unwrap();
    let desktop = tempfile::Builder::new()
        .prefix("Desktop")
        .rand_bytes(0)
        .tempdir_in(home.path())
        .unwrap();
    let path = home.path().to_str().unwrap().to_string();
    (desktop, home, path)
}

fn found(input: &str, home: &str) -> Vec<(String, Option<u32>, Option<u32>)> {
    extract_path_matches(input, Some(home))
        .into_iter()
        .map(|m| (m.path, m.line_num, m.col_num))
        .collect()
}

/// A home directory as macOS names them.
const MAC_HOME: &str = "/Users/0saker";

#[test]
fn lib_test_expand_path_valid() {
    let path = "~/Desktop";
    let expanded_path = expand_tilde(path, Some(MAC_HOME));
    // it doesn't have the trailing '/'
    assert_eq!(expanded_path, "/Users/0saker/Desktop");
}

#[test]
fn lib_test_expand_path_invalid() {
    let path = "~//Desktop";
    let expanded_path = expand_tilde(path, Some(MAC_HOME));
    // it doesn't have the trailing '/'
    assert_eq!(expanded_path, "/Users/0saker//Desktop");
}

#[test]
fn lib_test_expand_path_multiple_tilde() {
    let path = "~~/Desktop";
    let expanded_path = expand_tilde(path, Some(MAC_HOME));
    assert_eq!(expanded_path, "~~/Desktop");
}

#[test]
fn main_test_expand_path_valid() {
    let path = "~/Desktop";
    let expanded_path = expand_tilde(path, Some(MAC_HOME));
    // it doesn't have the trailing '/'
    assert_eq!(expanded_path, "/Users/0saker/Desktop");
}

#[test]
fn main_test_expand_path_invalid() {
    let path = "~//Desktop";
    let expanded_path = expand_tilde(path, Some(MAC_HOME));
    // it doesn't have the trailing '/'
    assert_eq!(expanded_path, "/Users/0saker//Desktop");
}

#[test]
fn main_test_expand_path_multiple_tilde() {
    let path = "~~/Desktop";
    let expanded_path = expand_tilde(path, Some(MAC_HOME));
    assert_eq!(expanded_path, "~~/Desktop");
}

#[test]
fn lib_test_extract_path_matches_path() {
    let (_d, _h, home) = home_with_desktop();
    let path = "~/Desktop";
    assert_eq!(found(path, &home), vec![("~/Desktop".to_string(), None, None)])
}

#[test]
fn lib_test_extract_path_matches_path_and_line_num() {
    let (_d, _h, home) = home_with_desktop();
    let path = "~/Desktop:12";
    assert_eq!(found(path, &home), vec![("~/Desktop".to_string(), Some(12), None)])
}

#[test]
fn lib_test_extract_path_matches_path_and_line_num_and_col_num() {
    let (_d, _h, home) = home_with_desktop();
    let path = "~/Desktop:12:10";
    assert_eq!(
        found(path, &home),
        vec![("~/Desktop".to_string(), Some(12), Some(10))]
    )
}

#[test]
fn lib_test_extract_path_matches_path_trailing_col() {
    let (_d, _h, home) = home_with_desktop();
    let path = "~/Desktop:";
    assert_eq!(found(path, &home), vec![("~/Desktop".to_string(), None, None)])
}

#[test]
fn lib_test_extract_path_matches_path_trailing_col_multiple() {
    let (_d, _h, home) = home_with_desktop();
    let path = "~/Desktop::;";
    assert_eq!(found(path, &home), vec![("~/Desktop".to_string(), None, None)])
}

#[test]
fn lib_test_extract_path_matches_colon_chars() {
    let (_d, _h, home) = home_with_desktop();
    let path = "~/Desktop:10:abc";
    assert_eq!(found(path, &home), vec![("~/Desktop".to_string(), Some(10), None)])
}

#[test]
fn main_test_extract_path_matches_path() {
    let (_d, _h, home) = home_with_desktop();
    let path = "~/Desktop";
    assert_eq!(found(path, &home), vec![("~/Desktop".to_string(), None, None)])
}

#[test]
fn main_test_extract_path_matches_path_and_line_num() {
    let (_d, _h, home) = home_with_desktop();
    let path = "~/Desktop:12";
    assert_eq!(found(path, &home), vec![("~/Desktop".to_string(), Some(12), None)])
}

#[test]
fn main_test_extract_path_matches_path_and_line_num_and_col_num() {
    let (_d, _h, home) = home_with_desktop();
    let path = "~/Desktop:12:10";
    assert_eq!(
        found(path, &home),
        vec![("~/Desktop".to_string(), Some(12), Some(10))]
    )
}

#[test]
fn main_test_extract_path_matches_path_trailing_col() {
    let (_d, _h, home) = home_with_desktop();
    let path = "~/Desktop:";
    assert_eq!(found(path, &home), vec![("~/Desktop".to_string(), None, None)])
}

#[test]
fn main_test_extract_path_matches_path_trailing_col_multiple() {
    let (_d, _h, home) = home_with_desktop();
    let path = "~/Desktop::;";
    assert_eq!(found(path, &home), vec![("~/Desktop".to_string(), None, None)])
}

#[test]
fn main_test_extract_path_matches_colon_chars() {
    let (_d, _h, home) = home_with_desktop();
    let path = "~/Desktop:10:abc";
    assert_eq!(found(path, &home), vec![("~/Desktop".to_string(), Some(10), None)])
}

#[test]
fn lib_made_up_paths_are_dropped() {
    let (_d, _h, home) = home_with_desktop();
    assert!(found("read notreal.xyz or e.g. whatever", &home).is_empty());
}

#[test]
fn main_made_up_paths_are_dropped() {
    let (_d, _h, home) = home_with_desktop();
    assert!(found("read notreal.xyz or e.g. whatever", &home).is_empty());
}
