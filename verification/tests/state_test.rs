use file_search_app::paths::PathStyle;
use file_search_app::indexing::{progress_due, unique_paths, IndexOutcome, IndexRun};
use file_search_app::records::{
    enabled_folder_paths, enabled_folders, find_folder, owning_folder, reindex_target, skip_file,
    total_files, unchanged, FileMeta, FolderRow,
};
use file_search_app::search::{
    collect_hits, index_lock_busy, search_request, total_hits, StoredDoc,
};

fn folder(id: i64, path: &str, enabled: bool, files: i64) -> FolderRow {
    FolderRow { id, path: path.to_string(), enabled, file_count: files, last_indexed_at: None }
}

fn meta(size: u64, mtime: i64, status: &str) -> FileMeta {
    FileMeta { path: "/d/a.txt".to_string(), size, mtime, status: status.to_string() }
}

fn doc(id: &str, path: &str) -> StoredDoc {
    StoredDoc {
        doc_id: Some(id.to_string()),
        path: Some(path.to_string()),
        filename: Some("f".to_string()),
        extension: Some("txt".to_string()),
        modified_at: Some(5),
        size: Some(7),
    }
}

#[test]
fn folders_are_found_by_id() {
    let f = vec![folder(3, "/a", true, 1), folder(7, "/b", false, 2), folder(7, "/c", true, 0)];
    assert_eq!(find_folder(&f, 7), Some(1));
    assert_eq!(find_folder(&f, 9), None);
    assert_eq!(reindex_target(&f, 3), Ok(0));
    assert_eq!(reindex_target(&f, 7), Err("비활성화된 폴더는 인덱싱할 수 없습니다".to_string()));
    assert_eq!(reindex_target(&f, 9), Err("no such folder".to_string()));
}

#[test]
fn enabled_folders_are_the_search_roots() {
    let f = vec![folder(1, "/a", true, 1), folder(2, "/b", false, 2), folder(3, "/c", true, 0)];
    assert_eq!(enabled_folder_paths(&f), vec!["/a".to_string(), "/c".to_string()]);
    assert_eq!(enabled_folders(&f), vec![0, 2]);
    assert_eq!(total_files(&f), Some(3));
    assert_eq!(total_files(&vec![folder(1, "/a", true, i64::MAX), folder(2, "/b", true, 1)]), None);
}

#[test]
fn owner_is_first_enabled_container() {
    let f = vec![folder(1, "/docs", false, 0), folder(2, "/docs", true, 0), folder(3, "/", true, 0)];
    assert_eq!(owning_folder(PathStyle::Unix, "/docs/a.txt", &f), Some(2));
    assert_eq!(owning_folder(PathStyle::Unix, "/other/a.txt", &f), Some(3));
    assert_eq!(owning_folder(PathStyle::Unix, "/docsx/a.txt", &vec![folder(1, "/docs", true, 0)]), None);
}

#[test]
fn incremental_pass_skips_unchanged_files() {
    assert!(skip_file(true, &Some(meta(10, 99, "ok")), 10, 99));
    assert!(skip_file(true, &Some(meta(10, 99, "error")), 10, 99));
    assert!(!skip_file(true, &Some(meta(10, 98, "ok")), 10, 99));
    assert!(!skip_file(true, &None, 10, 99));
    assert!(!skip_file(false, &Some(meta(10, 99, "ok")), 10, 99));
    assert!(unchanged(&meta(10, 99, "x"), 10, 99));
    assert!(!unchanged(&meta(10, 99, "x"), 11, 99));
}

#[test]
fn index_run_counts() {
    let stored = vec![
        ("/docs/a.txt".to_string(), "d1".to_string()),
        ("/docs/b.txt".to_string(), "d2".to_string()),
        ("/docsx/c.txt".to_string(), "d3".to_string()),
        ("/docs/a.txt".to_string(), "d4".to_string()),
    ];
    let mut run = IndexRun::start(PathStyle::Unix, 2, &stored, "/docs");
    assert_eq!(run.known, vec!["/docs/a.txt".to_string(), "/docs/b.txt".to_string()]);
    run.visit("/docs/a.txt");
    run.record_skipped();
    run.visit("/docs/new.txt");
    run.record_indexed();
    assert_eq!(run.known, vec!["/docs/b.txt".to_string()]);
    run.record_removed();
    assert_eq!(run.outcome(), IndexOutcome { indexed: 1, skipped: 1, removed: 1 });
}

#[test]
fn outcomes_add_up() {
    let mut t = IndexOutcome { indexed: 1, skipped: 2, removed: 3 };
    t.add(&IndexOutcome { indexed: 10, skipped: 20, removed: 30 });
    assert_eq!(t, IndexOutcome { indexed: 11, skipped: 22, removed: 33 });
}

#[test]
fn progress_every_25_files() {
    assert!(progress_due(0));
    assert!(!progress_due(1));
    assert!(progress_due(25));
    assert!(progress_due(50));
}

#[test]
fn event_paths_are_handled_once() {
    let p = vec!["/a".to_string(), "/b".to_string(), "/a".to_string(), "/c".to_string(), "/b".to_string()];
    assert_eq!(unique_paths(&p), vec!["/a".to_string(), "/b".to_string(), "/c".to_string()]);
}

#[test]
fn hits_are_restricted_to_roots() {
    let docs = vec![doc("1", "/docs/a.txt"), doc("2", "/other/b.txt"), doc("3", "/docs/sub/c.txt"), StoredDoc { doc_id: None, path: None, filename: None, extension: None, modified_at: None, size: None }];
    let roots = vec!["/docs".to_string()];
    let hits = collect_hits(PathStyle::Unix, &docs, Some(&roots));
    assert_eq!(hits.len(), 2);
    assert_eq!(hits[0].rank, 0);
    assert_eq!(hits[0].doc_id, "1");
    assert_eq!(hits[1].rank, 2);
    assert_eq!(hits[1].path, "/docs/sub/c.txt");
    let all = collect_hits(PathStyle::Unix, &docs, None);
    assert_eq!(all.len(), 4);
    assert_eq!(all[3].path, "");
    assert_eq!(all[3].size, 0);
    assert_eq!(all[3].modified_at, 0);
    assert_eq!(collect_hits(PathStyle::Unix, &docs, Some(&vec![])).len(), 4);
}

#[test]
fn total_is_at_least_the_hits() {
    assert_eq!(total_hits(5, 2), 5);
    assert_eq!(total_hits(1, 2), 2);
}

#[test]
fn disabled_folders_are_not_searched() {
    let on = vec![folder(1, "/documents", true, 1)];
    let req = search_request("report", &on).unwrap();
    assert_eq!(req.query, "filename:report");
    assert_eq!(req.limit, 100);
    assert_eq!(req.roots, vec!["/documents".to_string()]);
    let off = vec![folder(1, "/documents", false, 1)];
    assert!(search_request("report", &off).is_none());
    assert!(search_request("report", &vec![]).is_none());
}

#[test]
fn lock_busy_errors_are_retried() {
    assert!(index_lock_busy("Failed to acquire Lockfile: LockBusy. ..."));
    assert!(index_lock_busy("there is already an `IndexWriter` working on this index"));
    assert!(!index_lock_busy("permission denied"));
    assert!(!index_lock_busy(""));
}
