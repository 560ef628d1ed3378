use cream::paths::expand_tilde;
use cream::scan::extract_path_matches;
use tempfile::TempDir;

/// A project directory holding `src/main.rs` and `Cargo.toml`; the guard
/// removes it when dropped. Paths into it stand for the relative paths of a
/// project checkout.
fn project() -> (TempDir, String) {
    let dir = tempfile::tempdir().unwrap();
    let src = dir.path().join("src");
    let src_dir = tempfile::Builder::new().prefix("src").rand_bytes(0).tempdir_in(dir.path()).unwrap();
    let main = tempfile::Builder::new().prefix("main").suffix(".rs").rand_bytes(0).tempfile_in(&src).unwrap();
    let cargo = tempfile::Builder::new().prefix("Cargo").suffix(".toml").rand_bytes(0).tempfile_in(dir.path()).unwrap();
    // Keep the files once their guards go: the directory guard removes all.
    main.keep().unwrap();
    cargo.keep().unwrap();
    let _ = src_dir.keep();
    let root = dir.path().to_str().unwrap().to_string();
    (dir, root)
}

fn found(input: &str) -> Vec<(String, Option<u32>, Option<u32>)> {
    extract_path_matches(input, None)
        .into_iter()
        .map(|m| (m.path, m.line_num, m.col_num))
        .collect()
}

fn bare_path_text(root: &str) -> String {
    format!("warning: unused variable\n  --> {root}/src/main.rs\n   |\n")
}

fn line_number_text(root: &str) -> String {
    format!("{root}/src/main.rs:42:    let x = 5;\n")
}

fn mixed_text(root: &str) -> String {
    format!("Compiling cream\n{root}/src/main.rs is changed\nsee {root}/Cargo.toml:15 for the version\n")
}

const PROSE: &str = "This is just some prose, with no path in it at all.\nNot even e.g. this one.\n";

#[test]
fn lib_fixture_bare_path_no_line_number() {
    let (_d, root) = project();
    assert_eq!(found(&bare_path_text(&root)), vec![(format!("{root}/src/main.rs"), None, None)]);
}

#[test]
fn main_fixture_bare_path_no_line_number() {
    let (_d, root) = project();
    assert_eq!(found(&bare_path_text(&root)), vec![(format!("{root}/src/main.rs"), None, None)]);
}

#[test]
fn lib_fixture_path_with_line_number() {
    let (_d, root) = project();
    assert_eq!(found(&line_number_text(&root)), vec![(format!("{root}/src/main.rs"), Some(42), None)]);
}

#[test]
fn main_fixture_path_with_line_number() {
    let (_d, root) = project();
    assert_eq!(found(&line_number_text(&root)), vec![(format!("{root}/src/main.rs"), Some(42), None)]);
}

#[test]
fn lib_fixture_mixed_multiline() {
    let (_d, root) = project();
    assert_eq!(
        found(&mixed_text(&root)),
        vec![
            (format!("{root}/src/main.rs"), None, None),
            (format!("{root}/Cargo.toml"), Some(15), None),
        ]
    );
}

#[test]
fn main_fixture_mixed_multiline() {
    let (_d, root) = project();
    assert_eq!(
        found(&mixed_text(&root)),
        vec![
            (format!("{root}/src/main.rs"), None, None),
            (format!("{root}/Cargo.toml"), Some(15), None),
        ]
    );
}

#[test]
fn lib_fixture_no_path_prose() {
    assert!(found(PROSE).is_empty());
}

#[test]
fn main_fixture_no_path_prose() {
    assert!(found(PROSE).is_empty());
}

fn check_absolute_paths() {
    let (_d, root) = project();
    let abs = format!("{root}/src/main.rs");
    assert_eq!(found(&format!("{abs}:some content")), vec![(abs.clone(), None, None)]);
    assert_eq!(found(&format!("{abs}:42:some content")), vec![(abs, Some(42), None)]);
}

#[test]
fn lib_absolute_paths() {
    check_absolute_paths();
}

#[test]
fn main_absolute_paths() {
    check_absolute_paths();
}

fn check_trailing_punctuation_is_trimmed() {
    let (_d, root) = project();
    assert_eq!(
        found(&format!("edit {root}/src/main.rs, then {root}/Cargo.toml.")),
        vec![
            (format!("{root}/src/main.rs"), None, None),
            (format!("{root}/Cargo.toml"), None, None),
        ]
    );
}

#[test]
fn lib_trailing_punctuation_is_trimmed() {
    check_trailing_punctuation_is_trimmed();
}

#[test]
fn main_trailing_punctuation_is_trimmed() {
    check_trailing_punctuation_is_trimmed();
}

fn check_line_and_col() {
    let (_d, root) = project();
    assert_eq!(
        found(&format!("{root}/src/main.rs:7:3:uh oh")),
        vec![(format!("{root}/src/main.rs"), Some(7), Some(3))]
    );
}

#[test]
fn lib_line_and_col() {
    check_line_and_col();
}

#[test]
fn main_line_and_col() {
    check_line_and_col();
}

fn check_span_offsets_cover_path_and_suffix() {
    let (_d, root) = project();
    let input = format!("see {root}/src/main.rs:42 now");
    let m = &extract_path_matches(&input, None)[0];
    assert_eq!(&input[m.start..m.end], format!("{root}/src/main.rs:42"));
}

#[test]
fn lib_span_offsets_cover_path_and_suffix() {
    check_span_offsets_cover_path_and_suffix();
}

#[test]
fn main_span_offsets_cover_path_and_suffix() {
    check_span_offsets_cover_path_and_suffix();
}

fn check_tilde_expansion() {
    let home = "/home/someone";
    assert_eq!(expand_tilde("~/x", Some(home)), format!("{home}/x"));
    assert_eq!(expand_tilde("/abs/x", Some(home)), "/abs/x");
}

#[test]
fn lib_tilde_expansion() {
    check_tilde_expansion();
}

#[test]
fn main_tilde_expansion() {
    check_tilde_expansion();
}
