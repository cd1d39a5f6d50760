use specmonkey::eq_ignore_ascii_case;
use specmonkey::is_excluded;
use specmonkey::passes_extension_filter;
use specmonkey::path_extension;
use specmonkey::relative_to;
use specmonkey::select_files;
use specmonkey::starts_with_path;
use specmonkey::Config;

#[test]
fn test_path_extension() {
    assert_eq!(path_extension("dir/file.txt"), Some(String::from("txt")));
    assert_eq!(path_extension("dir/file.tar.gz"), Some(String::from("gz")));
    assert_eq!(path_extension("dir/file"), None);
    assert_eq!(path_extension("dir.d/file"), None);
    assert_eq!(path_extension("dir/.hidden"), None);
    assert_eq!(path_extension("dir/.hidden.rc"), Some(String::from("rc")));
    assert_eq!(path_extension("dir/file."), Some(String::from("")));
}

#[test]
fn test_eq_ignore_ascii_case() {
    assert!(eq_ignore_ascii_case("TxT", "txt"));
    assert!(eq_ignore_ascii_case("", ""));
    assert!(!eq_ignore_ascii_case("txt", "txts"));
    assert!(!eq_ignore_ascii_case("txt", "tyt"));
}

#[test]
fn test_passes_extension_filter() {
    let exts = vec![String::from("h"), String::from("cpp")];
    assert!(passes_extension_filter("src/a.H", &exts));
    assert!(passes_extension_filter("src/b.cpp", &exts));
    assert!(!passes_extension_filter("src/c.rs", &exts));
    assert!(!passes_extension_filter("src/noext", &exts));
    let none: Vec<String> = Vec::new();
    assert!(passes_extension_filter("anything.at.all", &none));
    assert!(passes_extension_filter("noext", &none));
}

#[test]
fn test_extension_filter_no_leading_dot() {
    let bare = vec![String::from("ts")];
    assert!(passes_extension_filter("x/y.ts", &bare));
    let dotted = vec![String::from(".ts")];
    assert!(!passes_extension_filter("x/y.ts", &dotted));
}

#[test]
fn test_starts_with_path() {
    assert!(starts_with_path("a/b/c", "a/b"));
    assert!(starts_with_path("a/b", "a/b"));
    assert!(!starts_with_path("a/bc", "a/b"));
    assert!(!starts_with_path("a", "a/b"));
}

#[test]
fn test_relative_to() {
    assert_eq!(relative_to("root/sub/f.c", "root"), "sub/f.c");
    assert_eq!(relative_to("root", "root"), "");
    assert_eq!(relative_to("elsewhere/f.c", "root"), "elsewhere/f.c");
}

#[test]
fn test_is_excluded() {
    let excl = vec![String::from("vendor"), String::from("target/debug")];
    assert!(is_excluded("vendor/lib.rs", &excl));
    assert!(is_excluded("target/debug/out", &excl));
    assert!(!is_excluded("vendors/lib.rs", &excl));
    assert!(!is_excluded("src/lib.rs", &excl));
}

#[test]
fn test_select_files() {
    let paths = vec![
        String::from("root/src/a.h"),
        String::from("root/src/b.rs"),
        String::from("root/vendor/c.h"),
        String::from("root/d.cpp"),
    ];
    let exts = vec![String::from("h"), String::from("cpp")];
    let excl = vec![String::from("vendor")];
    let kept = select_files(&paths, "root", &exts, &excl);
    assert_eq!(
        kept,
        vec![String::from("root/src/a.h"), String::from("root/d.cpp")]
    );
}

#[test]
fn test_select_files_no_filters_keeps_all() {
    let paths = vec![String::from("r/a"), String::from("r/b.x")];
    let none: Vec<String> = Vec::new();
    let kept = select_files(&paths, "r", &none, &none);
    assert_eq!(kept, paths);
}

#[test]
fn test_config_default() {
    let c = Config::default();
    assert_eq!(c.extensions, vec![String::from("h"), String::from("cpp")]);
    assert_eq!(c.domains, vec![String::from("example.com")]);
    assert_eq!(c.source_repository.url, "https://github.com/org/repo");
    assert_eq!(c.source_repository.branch, "main");
    assert_eq!(c.index_repository.url, "https://github.com/org/repo");
    assert_eq!(c.index_repository.branch, "main");
}
