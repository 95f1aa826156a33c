use reforge::display::{display_header, select_sources, SourceFile};
use reforge::paths::{compare_paths, is_same_path, is_sol_file, path_le_exec, relative_to};
use reforge::testing::{compare_expansions, mismatch_message, missing_file_message, test_macro_err, MacroSucceeded};
use reforge::text::{join_strings, str_contains, str_eq};

fn file(path: &str, content: &str) -> SourceFile {
    SourceFile { path: path.to_string(), content: content.to_string() }
}

fn listing(files: &[SourceFile]) -> Vec<(String, String)> {
    files.iter().map(|f| (f.path.clone(), f.content.clone())).collect()
}

#[test]
fn selects_matching_sources_in_path_order() {
    let sources = vec![
        file("/root/src/b.sol", "B"),
        file("/root/src/a.sol", "A"),
        file("/root/src/sub/x.sol", "X"),
        file("/other/src/c.sol", "C"),
    ];
    let out = select_sources("/root", "src/*.sol", &sources).ok().unwrap();
    assert_eq!(listing(&out), vec![("src/a.sol".to_string(), "A".to_string()), ("src/b.sol".to_string(), "B".to_string())]);
}

#[test]
fn recursive_glob_selects_nested_files() {
    let sources = vec![
        file("/root/src/b.sol", "B"),
        file("/root/src/sub/x.sol", "X"),
        file("/root/src/a/b.sol", "AB"),
        file("/root/src/a.sol", "A"),
    ];
    let out = select_sources("/root", "src/**/*.sol", &sources).ok().unwrap();
    let paths: Vec<String> = out.iter().map(|f| f.path.clone()).collect();
    // a directory sorts before a file whose name extends the directory's name
    assert_eq!(paths, vec!["src/a/b.sol", "src/a.sol", "src/b.sol", "src/sub/x.sol"]);
}

#[test]
fn glob_matching_ignores_case() {
    let sources = vec![file("/root/SRC/A.SOL", "A")];
    let out = select_sources("/root", "src/*.sol", &sources).ok().unwrap();
    assert_eq!(out.len(), 1);
}

#[test]
fn invalid_glob_is_an_error() {
    let sources = vec![file("/root/src/a.sol", "A")];
    assert!(select_sources("/root", "src/[", &sources).is_err());
    assert!(select_sources("/root", "***", &Vec::new()).is_err());
}

#[test]
fn nothing_selected_from_no_sources() {
    assert!(select_sources("/root", "*", &Vec::new()).ok().unwrap().is_empty());
}

#[test]
fn path_order_compares_components() {
    let le = |a: &str, b: &str| path_le_exec(a, b);
    assert!(le("a/b.sol", "a.sol"));
    assert!(!le("a.sol", "a/b.sol"));
    assert!(le("a", "a/b"));
    assert!(le("a.sol", "a.sol"));
    assert!(le("", "x"));
    assert!(le("A", "a"));
}

#[test]
fn path_order_skips_interior_dots_and_repeated_separators() {
    assert_eq!(compare_paths("x/a.sol", "x/./b.sol"), -1);
    assert_eq!(compare_paths("x/./b.sol", "x/a.sol"), 1);
    assert_eq!(compare_paths("x/!.sol", "x//b.sol"), -1);
    assert_eq!(compare_paths("x//b.sol", "x/b.sol"), 0);
    assert_eq!(compare_paths("x/b.sol/", "x/b.sol"), 0);
    assert_eq!(compare_paths("x/./b.sol", "x/b.sol"), 0);
}

#[test]
fn path_order_ranks_component_kinds() {
    // root before current directory before parent before a name
    assert_eq!(compare_paths("/a", "./a"), -1);
    assert_eq!(compare_paths("./a", "../a"), -1);
    assert_eq!(compare_paths("../a", "a"), -1);
    assert_eq!(compare_paths(".", ""), 1);
    assert_eq!(compare_paths("./", "."), 0);
    assert_eq!(compare_paths(".a", "a"), -1);
    assert_eq!(compare_paths("a/..", "a/.."), 0);
    assert_eq!(compare_paths("a/../b", "a/b"), -1);
}

#[test]
fn same_path_compares_components() {
    assert!(is_same_path("/src/./a.sol", "/src/a.sol"));
    assert!(is_same_path("/src//a.sol", "/src/a.sol/"));
    assert!(!is_same_path("./a.sol", "a.sol"));
    assert!(!is_same_path("/a.sol", "a.sol"));
}

#[test]
fn sources_sort_by_components() {
    let sources = vec![file("/r/x/./b.sol", "B"), file("/r/x/a.sol", "A")];
    let out = select_sources("/r", "**", &sources).ok().unwrap();
    let paths: Vec<String> = out.iter().map(|f| f.path.clone()).collect();
    assert_eq!(paths.len(), 2);
    assert_eq!(out[0].content, "A");
    assert_eq!(out[1].content, "B");
}

#[test]
fn sol_files_are_recognised_by_extension() {
    assert!(is_sol_file("/p/src/A.sol"));
    assert!(is_sol_file("A.sol"));
    assert!(is_sol_file("/p/a.b.sol"));
    assert!(!is_sol_file("/p/.sol"));
    assert!(!is_sol_file("/p/A.sol.bak"));
    assert!(!is_sol_file("/p/A.SOL"));
    assert!(!is_sol_file("/p/sol"));
    assert!(!is_sol_file(""));
}

#[test]
fn relative_paths() {
    assert_eq!(relative_to("/p/src/A.sol", "/p"), "src/A.sol");
    assert_eq!(relative_to("/q/A.sol", "/p"), "/q/A.sol");
    assert_eq!(relative_to("/pp/A.sol", "/p"), "/pp/A.sol");
}

#[test]
fn text_helpers() {
    assert!(str_eq("abc", "abc"));
    assert!(!str_eq("abc", "abd"));
    assert!(!str_eq("ab", "abc"));
    assert!(str_contains("/p/lib/forge-std/src/Test.sol", "/forge-std/src/"));
    assert!(!str_contains("/p/lib/forge-std/test/T.sol", "/forge-std/src/"));
    assert!(str_contains("abc", ""));
    assert!(!str_contains("ab", "abc"));
}

#[test]
fn expected_error_is_returned() {
    let r: Result<String, MacroSucceeded> = test_macro_err::<(), String>(Err("boom".to_string()));
    assert_eq!(r.ok(), Some("boom".to_string()));
}

#[test]
fn successful_expansion_fails_the_error_test() {
    let r = test_macro_err::<u32, String>(Ok(7));
    assert!(matches!(r, Err(MacroSucceeded::ExpectedError)));
}

#[test]
fn expansions_matching_expectations_have_no_mismatch() {
    let expected = vec![file("a.sol", "A2"), file("b/c.sol", "C")];
    let actual = vec![file("/src/b/c.sol", "C"), file("/src/a.sol", "A2"), file("/src/extra.sol", "E")];
    assert!(compare_expansions("/src", &expected, &actual).ok().unwrap().is_empty());
}

#[test]
fn mismatching_expansions_are_listed_with_actual_text() {
    let expected = vec![file("a.sol", "A2"), file("b/c.sol", "C")];
    let actual = vec![file("/src/a.sol", "A1"), file("/src/b/c.sol", "C!")];
    let out = compare_expansions("/src", &expected, &actual).ok().unwrap();
    assert_eq!(listing(&out), vec![("a.sol".to_string(), "A1".to_string()), ("b/c.sol".to_string(), "C!".to_string())]);
}

#[test]
fn expansions_are_found_by_path_components() {
    let expected = vec![file("a.sol", "A")];
    let actual = vec![file("/src/./a.sol", "A")];
    assert!(compare_expansions("/src", &expected, &actual).ok().unwrap().is_empty());
    let actual = vec![file("/src//a.sol", "B")];
    let out = compare_expansions("/src", &expected, &actual).ok().unwrap();
    assert_eq!(listing(&out), vec![("a.sol".to_string(), "B".to_string())]);
}

#[test]
fn first_missing_expansion_is_the_error() {
    let expected = vec![file("a.sol", "A"), file("b.sol", "B"), file("c.sol", "C")];
    let actual = vec![file("/src/a.sol", "wrong")];
    assert_eq!(compare_expansions("/src", &expected, &actual).err(), Some("b.sol".to_string()));
}

#[test]
fn messages() {
    assert_eq!(display_header("src/A.sol"), "=== src/A.sol ===");
    assert_eq!(missing_file_message("a.sol"), "missing file in expanded output: a.sol");
    assert_eq!(MacroSucceeded::ExpectedError.message(), "expected macro to error but it succeeded");
    let paths = vec!["a.sol".to_string(), "b.sol".to_string()];
    assert_eq!(
        mismatch_message(&paths, "snap", "exp"),
        "macro expansion mismatch in: a.sol, b.sol\nActual output written to 'snap' \u{2014} copy to 'exp' if correct."
    );
    assert_eq!(join_strings(&vec![], ", "), "");
    assert_eq!(join_strings(&vec!["x".to_string()], ", "), "x");
}
