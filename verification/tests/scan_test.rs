use file_search_app::paths::PathStyle;
use file_search_app::scanner::{accepted_extension, is_excluded, supported_extension};

#[test]
fn default_excludes_apply_to_any_component() {
    let none: Vec<String> = vec![];
    assert!(is_excluded("/home/u/node_modules/pkg/a.js", &none));
    assert!(is_excluded("/home/u/proj/.git", &none));
    assert!(is_excluded("target/debug/x.txt", &none));
    assert!(is_excluded("/a/.DS_Store", &none));
    assert!(!is_excluded("/home/u/proj/a.txt", &none));
    assert!(!is_excluded("/home/u/node_modules_backup/a.txt", &none));
}

#[test]
fn extra_excludes_apply_too() {
    let extra = vec!["proj".to_string()];
    assert!(is_excluded("/home/u/proj/a.txt", &extra));
    assert!(!is_excluded("/home/u/project/a.txt", &extra));
    let root = vec!["/".to_string()];
    assert!(is_excluded("/x", &root));
    assert!(!is_excluded("x", &root));
    let dot = vec![".".to_string()];
    assert!(is_excluded("./x", &dot));
    assert!(!is_excluded("a/./x", &dot));
}

#[test]
fn excluded_directory_covers_its_subtree() {
    let none: Vec<String> = vec![];
    assert!(is_excluded("/w/build", &none));
    assert!(is_excluded("/w/build/deep/file.txt", &none));
}

#[test]
fn scan_keeps_supported_files_only() {
    assert_eq!(accepted_extension(PathStyle::Unix, "/d/Report.TXT"), Some("txt".to_string()));
    assert_eq!(accepted_extension(PathStyle::Unix, "/d/회의록_2026.md"), Some("md".to_string()));
    assert_eq!(accepted_extension(PathStyle::Unix, "/d/data.csv"), Some("csv".to_string()));
    assert_eq!(accepted_extension(PathStyle::Unix, "/d/~$lock.docx"), None);
    assert_eq!(accepted_extension(PathStyle::Unix, "/d/.DS_Store"), None);
    assert_eq!(accepted_extension(PathStyle::Unix, "/d/tool.exe"), None);
    assert_eq!(accepted_extension(PathStyle::Unix, "/d/noext"), None);
}

#[test]
fn supported_extensions() {
    for e in ["txt", "md", "csv", "json", "xml", "html", "htm", "docx", "pptx", "xlsx", "pdf", "doc", "ppt", "xls"] {
        assert!(supported_extension(e), "{e}");
    }
    assert!(!supported_extension("png"));
    assert!(!supported_extension(""));
}
