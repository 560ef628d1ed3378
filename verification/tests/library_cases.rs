use cream::decimal::parse_u32;
use cream::grep::{parse_result, split_result, SearchResult};
use cream::packed::{Output, Packed};
use cream::paths::{after_probe, expand_tilde, trim_candidates, validate_path, validate_path_with, Probe};
use cream::scan::{extract_path_matches, path_scan_possible, try_extract_path_matches, PathMatch};
use cream::tabs::{editor_program, row_shade, Key, ListCommand, RowShade, TabKind, ViewerState};
use tempfile::{NamedTempFile, TempDir};

/// A fresh directory holding a file `main.rs`.
fn dir_with_main_rs() -> (NamedTempFile, TempDir, String) {
    let dir = tempfile::tempdir().unwrap();
    let file = tempfile::Builder::new()
        .prefix("main")
        .suffix(".rs")
        .rand_bytes(0)
        .tempfile_in(dir.path())
        .unwrap();
    let path = dir.path().to_str().unwrap().to_string();
    (file, dir, path)
}

fn found(input: &str) -> Vec<(String, Option<u32>, Option<u32>)> {
    extract_path_matches(input, None)
        .into_iter()
        .map(|m| (m.path, m.line_num, m.col_num))
        .collect()
}

#[test]
fn parse_u32_reads_like_str_parse() {
    assert_eq!(parse_u32(b"42"), Some(42));
    assert_eq!(parse_u32(b"+7"), Some(7));
    assert_eq!(parse_u32(b"007"), Some(7));
    assert_eq!(parse_u32(b"4294967295"), Some(4294967295));
    assert_eq!(parse_u32(b"4294967296"), None);
    assert_eq!(parse_u32(b"99999999999999"), None);
    assert_eq!(parse_u32(b""), None);
    assert_eq!(parse_u32(b"+"), None);
    assert_eq!(parse_u32(b"-1"), None);
    assert_eq!(parse_u32(b"1a"), None);
    for s in ["0", "12", "+3", "4294967295", "4294967296", "", "+", "-0", " 1", "1 "] {
        assert_eq!(parse_u32(s.as_bytes()), s.parse::<u32>().ok(), "{s:?}");
    }
}

#[test]
fn trim_candidates_walk_back_over_punctuation() {
    assert_eq!(trim_candidates("a.,"), vec![3, 2, 1]);
    assert_eq!(trim_candidates("src/x.rs"), vec![8]);
    assert_eq!(trim_candidates("x),!"), vec![4, 3, 2, 1]);
    assert_eq!(trim_candidates("a/b/"), vec![4]);
    assert_eq!(trim_candidates("..."), vec![3, 2, 1]);
    assert!(trim_candidates("///").is_empty());
    assert!(trim_candidates("").is_empty());
}

#[test]
fn expand_tilde_only_touches_a_leading_tilde_slash() {
    assert_eq!(expand_tilde("~/x", Some("/home/u")), "/home/u/x");
    assert_eq!(expand_tilde("/abs/x", Some("/home/u")), "/abs/x");
    assert_eq!(expand_tilde("~/x", None), "~/x");
    assert_eq!(expand_tilde("~", Some("/home/u")), "~");
    assert_eq!(expand_tilde("~/é", Some("/h")), "/h/é");
}

#[test]
fn validate_path_trims_only_when_needed() {
    let (_f, _d, dir) = dir_with_main_rs();
    let p = format!("{dir}/main.rs");
    assert_eq!(validate_path(&p, None), Some(p.len()));
    assert_eq!(validate_path(&format!("{p}).'"), None), Some(p.len()));
    assert_eq!(validate_path(&format!("{p}x"), None), None);
    assert_eq!(validate_path("/", None), None);
    assert_eq!(validate_path("//", None), None);
    assert_eq!(validate_path("", None), None);
    assert_eq!(validate_path("/tmp", None), Some(4));
}

#[test]
fn span_offsets_cover_absolute_path_and_suffix() {
    let (_f, _d, dir) = dir_with_main_rs();
    let input = format!("see {dir}/main.rs:42 now");
    let m = &extract_path_matches(&input, None)[0];
    assert_eq!(&input[m.start..m.end], format!("{dir}/main.rs:42"));
    assert_eq!(m.path, format!("{dir}/main.rs"));
    assert_eq!(m.start, 4);
}

#[test]
fn absolute_path_with_contents_after_the_colon() {
    let (_f, _d, dir) = dir_with_main_rs();
    let abs = format!("{dir}/main.rs");
    assert_eq!(found(&format!("{abs}:some content")), vec![(abs.clone(), None, None)]);
    assert_eq!(found(&format!("{abs}:42:some content")), vec![(abs.clone(), Some(42), None)]);
    assert_eq!(found(&format!("{abs}:7:3:uh oh")), vec![(abs, Some(7), Some(3))]);
}

#[test]
fn several_paths_on_one_line_and_punctuation() {
    let (_f, _d, dir) = dir_with_main_rs();
    let input = format!("edit {dir}/main.rs, then src/lib.rs.");
    assert_eq!(
        found(&input),
        vec![
            (format!("{dir}/main.rs"), None, None),
            ("src/lib.rs".to_string(), None, None),
        ]
    );
    let input = format!("{dir}/main.rs:1 and {dir}/main.rs:2:5\n{dir}/main.rs:3");
    assert_eq!(
        found(&input),
        vec![
            (format!("{dir}/main.rs"), Some(1), None),
            (format!("{dir}/main.rs"), Some(2), Some(5)),
            (format!("{dir}/main.rs"), Some(3), None),
        ]
    );
}

#[test]
fn suffix_after_trimmed_punctuation_is_not_read() {
    let (_f, _d, dir) = dir_with_main_rs();
    let input = format!("x {dir}/main.rs):12");
    let ms = extract_path_matches(&input, None);
    assert_eq!(ms.len(), 1);
    assert_eq!(ms[0].path, format!("{dir}/main.rs"));
    assert_eq!(ms[0].line_num, None);
    assert_eq!(ms[0].col_num, None);
    assert_eq!(ms[0].start, 2);
    assert_eq!(ms[0].end, 2 + ms[0].path.len());
    // A leading bracket belongs to the candidate, which then names no file.
    assert!(extract_path_matches(&format!("({dir}/main.rs):12"), None).is_empty());
}

#[test]
fn relative_paths_resolve_against_the_working_directory() {
    assert_eq!(
        found("see src/lib.rs:3:9 and src/lib.rs:1"),
        vec![
            ("src/lib.rs".to_string(), Some(3), Some(9)),
            ("src/lib.rs".to_string(), Some(1), None),
        ]
    );
    assert!(found("no paths in here").is_empty());
    assert!(found("").is_empty());
}

#[test]
fn overflowing_line_numbers_are_refused() {
    assert!(try_extract_path_matches("src/lib.rs:99999999999", None).is_none());
    assert!(Packed::try_new("src/lib.rs:99999999999".to_string(), None).is_none());
    let ok = try_extract_path_matches("src/lib.rs:9", None).unwrap();
    assert_eq!(ok.len(), 1);
    assert_eq!(ok[0].line_num, Some(9));
}

#[test]
fn match_display_strings() {
    let m = PathMatch { path: "src/main.rs".to_string(), line_num: Some(42), col_num: None, start: 0, end: 14 };
    assert_eq!(m.to_display_string(), "src/main.rs:42:-");
    assert_eq!(m.list_label(), "Path: src/main.rs, Line: 42, Col: -");
    let m = PathMatch { path: "a".to_string(), line_num: Some(0), col_num: Some(4294967295), start: 0, end: 1 };
    assert_eq!(m.to_display_string(), "a:0:4294967295");
    let m = PathMatch { path: "b".to_string(), line_num: None, col_num: None, start: 0, end: 1 };
    assert_eq!(m.list_label(), "Path: b, Line: -, Col: -");
}

#[test]
fn packed_keeps_content_and_lists_matches() {
    let p = Packed::try_new("look at src/lib.rs:3 and src/lib.rs".to_string(), None).unwrap();
    assert_eq!(p.content, "look at src/lib.rs:3 and src/lib.rs");
    assert_eq!(p.to_display_string(), "Matches:\n  src/lib.rs:3:-\n  src/lib.rs:-:-\n");
    let empty = Packed::default();
    assert_eq!(empty.to_display_string(), "Matches:\n");
    assert!(empty.content.is_empty());
    let new = Packed::new("src/lib.rs".to_string(), None);
    assert_eq!(new.matches.len(), 1);
}

#[test]
fn output_picks_the_stream_of_a_tab() {
    let out = Output {
        o_stdin: Packed::try_new("in".to_string(), None).unwrap(),
        o_stdout: Packed::try_new("out".to_string(), None).unwrap(),
        o_stderr: Packed::try_new("err".to_string(), None).unwrap(),
    };
    assert_eq!(out.packed(TabKind::Stdin).content, "in");
    assert_eq!(out.packed(TabKind::Stdout).content, "out");
    assert_eq!(out.packed(TabKind::Stderr).content, "err");
    let d = Output::default();
    assert!(d.o_stdout.matches.is_empty());
}

#[test]
fn tabs_cycle_both_ways() {
    assert_eq!(TabKind::Stdin.next(), TabKind::Stdout);
    assert_eq!(TabKind::Stdout.next(), TabKind::Stderr);
    assert_eq!(TabKind::Stderr.next(), TabKind::Stdin);
    assert_eq!(TabKind::Stdin.prev(), TabKind::Stderr);
    assert_eq!(TabKind::Stderr.prev(), TabKind::Stdout);
    for t in [TabKind::Stdin, TabKind::Stdout, TabKind::Stderr] {
        assert_eq!(t.next().prev(), t);
        assert_eq!(t.prev().next(), t);
        assert_eq!(t.next().next().next(), t);
        assert_eq!(TabKind::from_index(t.index()), t);
    }
    assert_eq!(TabKind::Stdin.index(), 0);
    assert_eq!(TabKind::Stderr.index(), 2);
    assert_eq!(TabKind::from_index(4), TabKind::Stdout);
    assert_eq!(TabKind::Stdin.title(), "stdin");
    assert_eq!(TabKind::Stdout.title(), "stdout");
    assert_eq!(TabKind::Stderr.title(), "stderr");
}

#[test]
fn keys_drive_the_viewer() {
    let mut s = ViewerState::new(TabKind::Stdout);
    assert!(!s.should_exit);
    assert_eq!(s.handle_key(Key::Char('l')), None);
    assert_eq!(s.current_tab, TabKind::Stderr);
    assert_eq!(s.handle_key(Key::Right), None);
    assert_eq!(s.current_tab, TabKind::Stdin);
    assert_eq!(s.handle_key(Key::Left), None);
    assert_eq!(s.current_tab, TabKind::Stderr);
    assert_eq!(s.handle_key(Key::Char('h')), None);
    assert_eq!(s.current_tab, TabKind::Stdout);
    assert_eq!(s.handle_key(Key::Char('j')), Some(ListCommand::SelectNext));
    assert_eq!(s.handle_key(Key::Down), Some(ListCommand::SelectNext));
    assert_eq!(s.handle_key(Key::Char('k')), Some(ListCommand::SelectPrevious));
    assert_eq!(s.handle_key(Key::Up), Some(ListCommand::SelectPrevious));
    assert_eq!(s.handle_key(Key::Char('g')), Some(ListCommand::SelectFirst));
    assert_eq!(s.handle_key(Key::Home), Some(ListCommand::SelectFirst));
    assert_eq!(s.handle_key(Key::Char('G')), Some(ListCommand::SelectLast));
    assert_eq!(s.handle_key(Key::End), Some(ListCommand::SelectLast));
    assert_eq!(s.handle_key(Key::Enter), Some(ListCommand::OpenSelected));
    assert_eq!(s.handle_key(Key::Tab), Some(ListCommand::SelectNextOnLine));
    assert_eq!(s.handle_key(Key::Char('x')), None);
    assert_eq!(s.handle_key(Key::Other), None);
    assert!(!s.should_exit);
    assert_eq!(s.current_tab, TabKind::Stdout);
    assert_eq!(s.handle_key(Key::Char('q')), None);
    assert!(s.should_exit);
    assert_eq!(s.current_tab, TabKind::Stdout);
    let mut t = ViewerState::new(TabKind::Stdin);
    t.handle_key(Key::Esc);
    assert!(t.should_exit);
}

#[test]
fn rows_alternate_shades() {
    assert_eq!(row_shade(0), RowShade::Normal);
    assert_eq!(row_shade(1), RowShade::Alternate);
    assert_eq!(row_shade(2), RowShade::Normal);
    assert_eq!(row_shade(7), RowShade::Alternate);
}

#[test]
fn split_result_is_str_lines() {
    for s in ["a\nb", "a\r\nb\n", "\n\nx", "", "a\rb\r", "x\r\n\r\n", "é:1:ü\n"] {
        assert_eq!(split_result(s), s.lines().collect::<Vec<_>>(), "{s:?}");
    }
}

#[test]
fn parse_result_reads_grep_lines() {
    let out = "src/main.rs:42:fn main() {\nno colon here\nfile:abc:x\nCargo.toml:+7:a:b\nx:1:\n";
    let lines = split_result(out);
    let rs = parse_result(&lines);
    let got: Vec<(Option<&str>, Option<u32>, &str)> =
        rs.iter().map(|r| (r.file_path, r.line_num, r.contents)).collect();
    assert_eq!(
        got,
        vec![
            (Some("src/main.rs"), Some(42), "fn main() {"),
            (Some("Cargo.toml"), Some(7), "a:b"),
            (Some("x"), Some(1), ""),
        ]
    );
    let r = SearchResult { file_path: Some("f.rs"), line_num: Some(3), contents: "let x;" };
    assert_eq!(r.to_display_string(), "f.rs:3:let x;\n\n");
}

#[test]
fn scan_possible_unless_a_number_overflows() {
    assert!(path_scan_possible(""));
    assert!(path_scan_possible("a/b:4294967295:1 c.d:0"));
    assert!(!path_scan_possible("a/b:4294967296"));
    assert!(!path_scan_possible("x.y:1:99999999999"));
    assert!(path_scan_possible("/:4294967296"));
}

#[test]
fn numbers_are_only_read_after_kept_paths() {
    assert_eq!(try_extract_path_matches("x.y:4294967296", None).unwrap(), vec![]);
    assert_eq!(try_extract_path_matches("/:4294967296", None).unwrap(), vec![]);
    assert_eq!(try_extract_path_matches("no/such/file:1:99999999999 and more", None).unwrap(), vec![]);
    let (_f, _d, dir) = dir_with_main_rs();
    // A kept path trimmed of punctuation has its number left unread.
    let trimmed = format!("{dir}/main.rs.:99999999999");
    let ms = try_extract_path_matches(&trimmed, None).unwrap();
    assert_eq!(ms.len(), 1);
    assert_eq!(ms[0].line_num, None);
    // A path kept whole has its number read, and here it does not fit.
    assert!(try_extract_path_matches(&format!("{dir}/main.rs:99999999999"), None).is_none());
    assert!(Packed::try_new(format!("{dir}/main.rs:4294967296"), None).is_none());
    let p = Packed::try_new("x.y:4294967296".to_string(), None).unwrap();
    assert_eq!(p.content, "x.y:4294967296");
    assert!(p.matches.is_empty());
}

#[test]
fn relative_dotted_names_are_candidates() {
    // A dotted name without a slash is a candidate, and the number after it is
    // read as its line number: one that does not fit makes the scan impossible.
    assert!(!path_scan_possible("see Cargo.toml:99999999999"));
    assert!(!path_scan_possible("see Cargo.toml:1:99999999999"));
    // A final '.' is not part of the candidate, so a number after it is not
    // the candidate's line number.
    assert!(path_scan_possible("see Cargo.toml.:99999999999"));
    // The number is read only when the name is kept; here no such file exists.
    assert_eq!(try_extract_path_matches("see Cargo_nowhere.toml:99999999999", None).unwrap(), vec![]);
    // Names relative to the working directory are probed as they are.
    let probe = |q: &str| q == "Cargo.toml";
    assert_eq!(validate_path_with("Cargo.toml", None, &probe), Some(10));
    assert_eq!(validate_path_with("Cargo.toml.", None, &probe), Some(10));
}
