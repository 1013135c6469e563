use file_search_app::documents::{slide_parts, sorted_parts};
use file_search_app::indexing::unique_paths;
use file_search_app::paths::{host_style, path_under};
use file_search_app::query::{escape_term, parse};
use file_search_app::records::{owning_folder, FolderRow};
use file_search_app::scanner::is_excluded;
use file_search_app::search::{collect_hits, StoredDoc};

fn v(items: &[&str]) -> Vec<String> {
    items.iter().map(|x| x.to_string()).collect()
}

#[test]
fn escaping_keeps_terms_apart() {
    let terms = ["a b", "a\\ b", "a\\", "a", "a:b", "a\\:b", ""];
    for (i, x) in terms.iter().enumerate() {
        for (j, y) in terms.iter().enumerate() {
            assert_eq!(escape_term(x) == escape_term(y), i == j, "{x:?} {y:?}");
        }
    }
}

#[test]
fn containment_laws_on_examples() {
    assert!(path_under("/a/b", "/a/b"));
    assert_eq!(path_under("/a/b/c", "/a/b/"), path_under("/a/b/c", "/a/b"));
    assert!(path_under("/a/b/c/d", "/a/b/c") && path_under("/a/b/c", "/a"));
    assert!(path_under("/a/b/c/d", "/a"));
}

#[test]
fn batch_paths_once_each() {
    let batch = v(&["/x", "/y", "/x", "/x", "/z"]);
    let once = unique_paths(&batch);
    for p in &batch {
        assert_eq!(once.iter().filter(|q| *q == p).count(), 1);
    }
    assert_eq!(once.len(), 3);
}

#[test]
fn hits_stay_in_scope_and_rank_order() {
    let doc = |p: &str| StoredDoc {
        doc_id: Some(p.to_string()),
        path: Some(p.to_string()),
        filename: None,
        extension: None,
        modified_at: None,
        size: None,
    };
    let docs = vec![doc("/b/1"), doc("/a/2"), doc("/c/3"), doc("/a/4"), doc("/ab/5")];
    let roots = v(&["/a", "/c"]);
    let hits = collect_hits(host_style(), &docs, Some(&roots));
    assert_eq!(hits.iter().map(|h| h.rank).collect::<Vec<_>>(), vec![1, 2, 3]);
    for h in &hits {
        assert!(roots.iter().any(|r| path_under(&h.path, r)));
    }
}

#[test]
fn owner_is_an_enabled_container() {
    let f = vec![
        FolderRow { id: 1, path: "/w".to_string(), enabled: false, file_count: 0, last_indexed_at: None },
        FolderRow { id: 2, path: "/w/sub".to_string(), enabled: true, file_count: 0, last_indexed_at: Some(3) },
    ];
    let id = owning_folder(host_style(), "/w/sub/f.txt", &f).unwrap();
    let owner = f.iter().find(|x| x.id == id).unwrap();
    assert!(owner.enabled && path_under("/w/sub/f.txt", &owner.path));
    assert_eq!(owning_folder(host_style(), "/w/other.txt", &f), None);
}

#[test]
fn plain_terms_are_plain_words() {
    let q = parse("  a\t\"b c\"  d\"e   \u{3000}f name:G \"\" ");
    for t in &q.general {
        assert!(!t.is_empty());
        assert!(!t.chars().any(|c| c.is_whitespace() || c == '"'), "{t:?}");
    }
    for p in &q.phrases {
        assert!(!p.contains('"') && !p.trim().is_empty());
    }
    assert_eq!(q.general, v(&["a", "d"]));
    assert_eq!(q.phrases, v(&["b c", "e   \u{3000}f name:G "]));
}

#[test]
fn exclusion_covers_everything_below() {
    let extra = v(&["private"]);
    for dir in ["/h/node_modules", "/h/private", "rel/.cache"] {
        assert!(is_excluded(dir, &extra));
        assert!(is_excluded(&format!("{dir}/x"), &extra));
        assert!(is_excluded(&format!("{dir}/x/y.txt"), &extra));
    }
}

#[test]
fn part_order_does_not_depend_on_archive_order() {
    let a = v(&["word/b.xml", "word/a.xml", "word/c.xml", "x.xml"]);
    let b = v(&["x.xml", "word/c.xml", "word/a.xml", "word/b.xml"]);
    assert_eq!(sorted_parts(&a, "word/", ".xml"), sorted_parts(&b, "word/", ".xml"));
    let s1 = v(&["ppt/slides/slide3.xml", "ppt/slides/slide1.xml", "ppt/slides/slide2.xml"]);
    let s2 = v(&["ppt/slides/slide2.xml", "ppt/slides/slide3.xml", "ppt/slides/slide1.xml"]);
    assert_eq!(slide_parts(&s1), slide_parts(&s2));
}

#[test]
fn pruning_removes_exactly_unknown_ids() {
    let indexed = v(&["d1", "d2", "d3", "d2"]);
    let known = v(&["d2", "d9"]);
    let stale = file_search_app::indexing::stale_ids(&indexed, &known);
    assert_eq!(stale, v(&["d1", "d3"]));
    for id in &indexed {
        assert_eq!(stale.contains(id), !known.contains(id));
    }
}

#[test]
fn unmatched_stored_files_are_the_removal_candidates() {
    let stored = vec![
        ("/f/a".to_string(), "1".to_string()),
        ("/f/b".to_string(), "2".to_string()),
        ("/f/c".to_string(), "3".to_string()),
        ("/g/d".to_string(), "4".to_string()),
    ];
    let mut run = file_search_app::indexing::IndexRun::start(host_style(), 2, &stored, "/f");
    run.visit("/f/b");
    run.visit("/f/new");
    assert_eq!(run.known, v(&["/f/a", "/f/c"]));
}
