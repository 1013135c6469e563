use file_search_app::documents::slide_number;
use file_search_app::indexing::batch_paths;
use file_search_app::paths::{extension_on, filename_on, PathStyle};
use file_search_app::query::{escape_term, parse, to_tantivy_query};
use file_search_app::records::{reconcile_folders, FolderRow};
use file_search_app::scanner::watched_file;
use file_search_app::search::{open_step, parsed_search_request, query_attempt, OpenStep, OPEN_RETRIES};

fn v(items: &[&str]) -> Vec<String> {
    items.iter().map(|x| x.to_string()).collect()
}

fn unescape(t: &str) -> String {
    let mut out = String::new();
    let mut it = t.chars();
    while let Some(c) = it.next() {
        if c == '\\' {
            if let Some(d) = it.next() {
                out.push(d);
            } else {
                out.push(c);
            }
        } else {
            out.push(c);
        }
    }
    out
}

#[test]
fn escaping_is_undone_by_dropping_backslashes() {
    let specials = " \"*?+-~^&|()!{}[]:\\";
    for s in ["a b", "a\\ b", "x:y(z)", "plain", "", "\\\\", "한글 [1]"] {
        let e = escape_term(s);
        assert_eq!(unescape(&e), s);
        let n = s.chars().filter(|c| c.is_whitespace() || specials.contains(*c)).count();
        assert_eq!(e.chars().count(), s.chars().count() + n);
    }
}

#[test]
fn filename_twice_is_filename_once() {
    for style in [PathStyle::Unix, PathStyle::Windows] {
        for p in ["/a/b/report.txt", "dir/sub/", "a/..", "/", "", r"x\y\z.doc", "a/b/."] {
            let once = filename_on(style, p);
            assert_eq!(filename_on(style, &once), once, "{p:?}");
        }
    }
}

#[test]
fn extensions_are_lower_case_suffixes_without_dots() {
    for style in [PathStyle::Unix, PathStyle::Windows] {
        for p in ["x/Report.PDF", "archive.tar.GZ", "/home/u/.bashrc", "noext", "trailing.", r"C:\a\B.XlSx"] {
            let e = extension_on(style, p);
            assert_eq!(e, e.to_ascii_lowercase());
            assert!(!e.contains('.') && !e.contains('/'));
            if !e.is_empty() {
                assert!(filename_on(style, p).to_ascii_lowercase().ends_with(&format!(".{e}")));
            }
        }
    }
}

#[test]
fn slide_numbers_read_back() {
    for n in [0u32, 1, 7, 10, 12, 999, u32::MAX] {
        assert_eq!(slide_number(&format!("ppt/slides/slide{n}.xml")), Some(n));
    }
    assert_eq!(slide_number("ppt/slides/_rels/slide1.xml.rels"), None);
    assert_eq!(slide_number("ppt/slides/slide.xml"), None);
    assert_eq!(slide_number("ppt/slideLayouts/slideLayout1.xml"), None);
    assert_eq!(slide_number("ppt/slides/slide4294967296.xml"), None);
}

#[test]
fn parsed_request_keeps_limit_and_folders() {
    let roots = v(&["/a", "/b"]);
    let r = parsed_search_request("name:Plan ext:.PDF 보고서", 7, roots.clone());
    assert_eq!(r.query, to_tantivy_query(&parse("name:Plan ext:.PDF 보고서")));
    assert_eq!(r.limit, 7);
    assert_eq!(r.roots, roots);
}

#[test]
fn ext_operator_lower_cases_ascii() {
    let q = parse("ext:.PDF name:Plan");
    assert_eq!(q.ext_filters, v(&["pdf"]));
    assert_eq!(q.filename_terms, v(&["plan"]));
}

#[test]
fn rejected_queries_fall_back_to_escaped_then_nothing() {
    assert_eq!(query_attempt("a:(b", 0), Some("a:(b".to_string()));
    assert_eq!(query_attempt("a:(b", 1), Some("a\\:\\(b".to_string()));
    assert_eq!(query_attempt("a:(b", 2), None);
}

#[test]
fn opening_retries_only_while_locked() {
    assert_eq!(open_step(0, "LockBusy"), OpenStep::Retry);
    assert_eq!(open_step(0, "there is already an `IndexWriter` working"), OpenStep::Retry);
    assert_eq!(open_step(0, "no such file"), OpenStep::GiveUp);
    assert_eq!(open_step(OPEN_RETRIES - 2, "LockBusy"), OpenStep::Retry);
    assert_eq!(open_step(OPEN_RETRIES - 1, "LockBusy"), OpenStep::GiveUp);
}

#[test]
fn busy_watcher_keeps_batches_for_later() {
    let mut pending: Vec<String> = Vec::new();
    assert!(batch_paths(true, &mut pending, &v(&["/a", "/b", "/a"])).is_empty());
    assert_eq!(pending, v(&["/a", "/b", "/a"]));
    assert!(batch_paths(true, &mut pending, &v(&["/c"])).is_empty());
    assert_eq!(batch_paths(false, &mut pending, &v(&["/b", "/d"])), v(&["/a", "/b", "/c", "/d"]));
    assert!(pending.is_empty());
    assert!(batch_paths(false, &mut pending, &Vec::new()).is_empty());
}

#[test]
fn watched_changes_follow_the_scan_rules() {
    let u = PathStyle::Unix;
    assert_eq!(watched_file(u, "/w/docs/Plan.DOCX"), Some("docx".to_string()));
    assert_eq!(watched_file(u, "/w/node_modules/readme.md"), None);
    assert_eq!(watched_file(u, "/w/.git/config.txt"), None);
    assert_eq!(watched_file(u, "/w/~$Plan.docx"), None);
    assert_eq!(watched_file(u, "/w/tool.exe"), None);
    assert_eq!(watched_file(PathStyle::Windows, r"C:\w\build\a.txt"), None);
}

#[test]
fn reconcile_takes_enabled_present_folders() {
    let f = |id: i64, enabled: bool| FolderRow {
        id,
        path: format!("/f{id}"),
        enabled,
        file_count: 0,
        last_indexed_at: None,
    };
    let folders = vec![f(1, true), f(2, false), f(3, true), f(4, true)];
    assert_eq!(reconcile_folders(&folders, &vec![true, true, false, true]), vec![0, 3]);
}
