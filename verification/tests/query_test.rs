use file_search_app::paths::{
    extension_of, extension_on, filename_of, filename_on, path_under, path_under_on, PathStyle,
};
use file_search_app::scanner::is_excluded_on;
use file_search_app::query::{escape_term, parse, to_tantivy_query};

fn s(v: &[&str]) -> Vec<String> {
    v.iter().map(|x| x.to_string()).collect()
}

#[test]
fn filename_of_takes_last_component() {
    assert_eq!(filename_of("/a/b/report.txt"), "report.txt");
    assert_eq!(filename_of("dir/sub/"), "sub");
    assert_eq!(filename_of("a/b/."), "b");
    assert_eq!(filename_of("회의록_2026.docx"), "회의록_2026.docx");
}

#[test]
fn filename_of_falls_back_to_whole_path() {
    assert_eq!(filename_of("/"), "/");
    assert_eq!(filename_of(""), "");
    assert_eq!(filename_of("a/.."), "a/..");
    assert_eq!(filename_of("."), ".");
}

#[test]
fn extension_of_lowercases_last_suffix() {
    assert_eq!(extension_of("x/Report.PDF"), "pdf");
    assert_eq!(extension_of("archive.tar.GZ"), "gz");
    assert_eq!(extension_of("/home/u/.bashrc"), "");
    assert_eq!(extension_of("noext"), "");
    assert_eq!(extension_of("trailing."), "");
    assert_eq!(extension_of("..x"), "x");
    assert_eq!(extension_of("/dir.d/"), "d");
}

#[test]
fn path_under_respects_component_boundaries() {
    assert!(path_under("/projects/a/b.txt", "/projects"));
    assert!(path_under("/projects", "/projects/"));
    assert!(path_under("/projects/", "/projects"));
    assert!(!path_under("/projectsBackup/a.txt", "/projects"));
    assert!(!path_under("/other", "/projects"));
    assert!(path_under("/anything", "/"));
}

#[test]
fn parse_sorts_operators() {
    let q = parse("report ext:.PDF name:Foo path:Proj");
    assert_eq!(q.general, s(&["report"]));
    assert_eq!(q.ext_filters, s(&["pdf"]));
    assert_eq!(q.filename_terms, s(&["foo"]));
    assert_eq!(q.path_terms, s(&["proj"]));
    assert!(q.phrases.is_empty());
}

#[test]
fn parse_takes_out_quoted_phrases() {
    let q = parse("a \"smart factory\" b \"   \" c");
    assert_eq!(q.phrases, s(&["smart factory"]));
    assert_eq!(q.general, s(&["a", "b", "c"]));
}

#[test]
fn parse_drops_unmatched_quotes() {
    let q = parse("x\"y z");
    assert!(q.phrases.is_empty());
    assert_eq!(q.general, s(&["xy", "z"]));
}

#[test]
fn parse_ignores_empty_operator_values() {
    let q = parse("name: ext: path: 품목 ext:csv");
    assert!(q.filename_terms.is_empty());
    assert!(q.path_terms.is_empty());
    assert_eq!(q.ext_filters, s(&["csv"]));
    assert_eq!(q.general, s(&["품목"]));
}

#[test]
fn tantivy_query_joins_clauses_with_and() {
    let q = parse("report \"smart factory\" name:Foo path:proj ext:pdf");
    assert_eq!(
        to_tantivy_query(&q),
        "filename:report AND filename:\"smart\\ factory\" AND filename:foo AND path:proj AND extension:pdf"
    );
    assert_eq!(to_tantivy_query(&parse("")), "");
}

#[test]
fn escape_term_escapes_special_characters() {
    assert_eq!(escape_term("a-b c"), "a\\-b\\ c");
    assert_eq!(escape_term("x:(y)"), "x\\:\\(y\\)");
    assert_eq!(escape_term("back\\slash"), "back\\\\slash");
    assert_eq!(escape_term("plain"), "plain");
}

#[test]
fn windows_paths_normalise_separators_and_case() {
    let w = PathStyle::Windows;
    assert!(path_under_on(w, "d:/projects/Report.docx", r"D:\Projects"));
    assert!(path_under_on(w, r"D:\PROJECTS\a\b.txt", r"d:\projects\"));
    assert!(!path_under_on(w, r"D:\ProjectsBackup\a.txt", r"D:\Projects"));
    assert!(!path_under_on(PathStyle::Unix, "/Projects/a.txt", "/projects"));
    assert!(!path_under_on(PathStyle::Unix, r"a\b", "a"));
}

#[test]
fn windows_file_names_split_on_both_separators() {
    let w = PathStyle::Windows;
    assert_eq!(filename_on(w, r"C:\dir\Report.docx"), "Report.docx");
    assert_eq!(filename_on(w, "C:/dir/sub/"), "sub");
    assert_eq!(filename_on(w, "C:foo.txt"), "foo.txt");
    assert_eq!(filename_on(w, "C:"), "C:");
    assert_eq!(filename_on(PathStyle::Unix, r"a\b.txt"), r"a\b.txt");
    assert_eq!(extension_on(w, r"x.d\file"), "");
    assert_eq!(extension_on(PathStyle::Unix, r"x.d\file"), "d\\file");
    assert_eq!(extension_on(w, r"C:\a\B.XLSX"), "xlsx");
}

#[test]
fn windows_components_split_on_both_separators() {
    let none: Vec<String> = Vec::new();
    assert!(is_excluded_on(PathStyle::Windows, r"C:\src\node_modules\a.js", &none));
    assert!(!is_excluded_on(PathStyle::Unix, r"src\node_modules\a.js", &none));
    assert!(is_excluded_on(PathStyle::Unix, "src/node_modules/a.js", &none));
    let drive = vec!["C:".to_string()];
    assert!(is_excluded_on(PathStyle::Windows, r"C:\x", &drive));
}

#[test]
fn windows_share_device_and_verbatim_prefixes() {
    let w = PathStyle::Windows;
    assert_eq!(filename_on(w, r"\\server\share"), r"\\server\share");
    assert_eq!(filename_on(w, r"\\server\share\dir\a.txt"), "a.txt");
    assert_eq!(filename_on(w, "//server/share/a.txt"), "a.txt");
    assert_eq!(filename_on(w, r"\\?\cat_pics"), r"\\?\cat_pics");
    assert_eq!(filename_on(w, r"\\.\COM1"), r"\\.\COM1");
    assert_eq!(filename_on(w, r"\\?\UNC\srv\share"), r"\\?\UNC\srv\share");
    assert_eq!(filename_on(w, r"\\?\UNC\srv\share\x.txt"), "x.txt");
    assert_eq!(filename_on(w, r"\\?\C:\x\y.txt"), "y.txt");
    assert_eq!(extension_on(w, r"\\srv\share.d"), "");
    let none: Vec<String> = Vec::new();
    assert!(!is_excluded_on(w, r"\\nas\build\a.txt", &none));
    assert!(is_excluded_on(w, r"\\nas\share\build\a.txt", &none));
    assert!(path_under_on(w, r"\\NAS\Share\a\b.txt", r"\\nas\share"));
}
