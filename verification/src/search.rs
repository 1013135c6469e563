//! Turning a user query into an index request, and the index's top
//! documents into search hits restricted to the enabled folders.
use vstd::prelude::*;
use crate::paths::{under, under_chars, PathStyle};
use crate::query::{escape_term, escaped, parse, parse_spec, strs, tantivy_query_spec, to_tantivy_query};
use crate::records::{enabled_folder_paths, enabled_paths, FolderRow};
use crate::strings::chars_of;

verus! {

/// The stored fields of a matching document as the index returned them:
/// `None` where the document lacks the field.
pub struct StoredDoc {
    pub doc_id: Option<String>,
    pub path: Option<String>,
    pub filename: Option<String>,
    pub extension: Option<String>,
    pub modified_at: Option<i64>,
    pub size: Option<u64>,
}

/// A search hit: the document's fields, missing ones defaulted, and its
/// position in the index's ranking (by which its score is found).
pub struct HitFields {
    pub rank: usize,
    pub doc_id: String,
    pub path: String,
    pub filename: String,
    pub extension: String,
    pub size: u64,
    pub modified_at: i64,
}

/// A hit as sequences.
pub struct HitView {
    pub rank: usize,
    pub doc_id: Seq<char>,
    pub path: Seq<char>,
    pub filename: Seq<char>,
    pub extension: Seq<char>,
    pub size: u64,
    pub modified_at: i64,
}

impl View for HitFields {
    type V = HitView;

    open spec fn view(&self) -> HitView {
        HitView {
            rank: self.rank,
            doc_id: self.doc_id@,
            path: self.path@,
            filename: self.filename@,
            extension: self.extension@,
            size: self.size,
            modified_at: self.modified_at,
        }
    }
}

pub open spec fn text_or_empty(o: Option<String>) -> Seq<char> {
    match o {
        Some(s) => s@,
        None => Seq::empty(),
    }
}

/// The hit for the document ranked `rank`.
pub open spec fn hit_of(rank: usize, d: StoredDoc) -> HitView {
    HitView {
        rank,
        doc_id: text_or_empty(d.doc_id),
        path: text_or_empty(d.path),
        filename: text_or_empty(d.filename),
        extension: text_or_empty(d.extension),
        size: match d.size {
            Some(s) => s,
            None => 0,
        },
        modified_at: match d.modified_at {
            Some(m) => m,
            None => 0,
        },
    }
}

/// A document is kept when no folders restrict the search, or it lies in
/// one of them.
pub open spec fn in_scope(style: PathStyle, path: Seq<char>, roots: Option<Seq<Seq<char>>>) -> bool {
    match roots {
        None => true,
        Some(rs) => rs.len() == 0 || exists|i: int| 0 <= i < rs.len() && under(style, path, #[trigger] rs[i]),
    }
}

/// The hits for the ranked documents `docs`, in rank order.
pub open spec fn hits_spec(style: PathStyle, docs: Seq<StoredDoc>, roots: Option<Seq<Seq<char>>>) -> Seq<HitView>
    decreases docs.len(),
{
    if docs.len() == 0 {
        Seq::empty()
    } else {
        let r = hits_spec(style, docs.drop_last(), roots);
        if in_scope(style, text_or_empty(docs.last().path), roots) {
            r.push(hit_of((docs.len() - 1) as usize, docs.last()))
        } else {
            r
        }
    }
}

pub open spec fn roots_view(roots: Option<&Vec<String>>) -> Option<Seq<Seq<char>>> {
    match roots {
        Some(v) => Some(strs(v@)),
        None => None,
    }
}

fn text_or_default(o: &Option<String>) -> (r: String)
    ensures
        r@ == text_or_empty(*o),
{
    match o {
        Some(s) => s.clone(),
        None => String::new(),
    }
}

/// The path lies in one of `roots`, or `roots` is empty or absent.
fn scope_holds(style: PathStyle, path: &String, roots: Option<&Vec<String>>) -> (b: bool)
    ensures
        b == in_scope(style, path@, roots_view(roots)),
{
    match roots {
        None => true,
        Some(rs) => {
            if rs.len() == 0 {
                return true;
            }
            let p = chars_of(path.as_str());
            let mut i: usize = 0;
            while i < rs.len()
                invariant
                    i <= rs.len(),
                    p@ == path@,
                    roots_view(roots) == Some(strs(rs@)),
                    forall|j: int| 0 <= j < i ==> !under(style, path@, rs@[j]@),
                decreases rs.len() - i,
            {
                let r = chars_of(rs[i].as_str());
                if under_chars(&p, &r, style) {
                    assert(under(style, path@, strs(rs@)[i as int]));
                    assert(exists|j: int|
                        0 <= j < strs(rs@).len() && under(style, path@, #[trigger] strs(rs@)[j]));
                    return true;
                }
                i = i + 1;
            }
            assert(!exists|j: int| 0 <= j < strs(rs@).len() && under(style, path@, #[trigger] strs(rs@)[j]))
                by {
                if exists|j: int| 0 <= j < strs(rs@).len() && under(style, path@, #[trigger] strs(rs@)[j]) {
                    let j = choose|j: int|
                        0 <= j < strs(rs@).len() && under(style, path@, #[trigger] strs(rs@)[j]);
                    assert(strs(rs@)[j] == rs@[j]@);
                }
            }
            false
        },
    }
}

/// The hits for the ranked documents: fields defaulted to empty or zero, and
/// documents outside every folder of `roots` left out (a missing or empty
/// `roots` keeps all).
pub fn collect_hits(style: PathStyle, docs: &Vec<StoredDoc>, roots: Option<&Vec<String>>) -> (r: Vec<HitFields>)
    ensures
        r@.map_values(|h: HitFields| h@) == hits_spec(style, docs@, roots_view(roots)),
{
    let mut out: Vec<HitFields> = Vec::new();
    let mut i: usize = 0;
    assert(out@.map_values(|h: HitFields| h@) =~= Seq::<HitView>::empty());
    while i < docs.len()
        invariant
            i <= docs.len(),
            out@.map_values(|h: HitFields| h@) == hits_spec(style, docs@.take(i as int), roots_view(roots)),
        decreases docs.len() - i,
    {
        assert(docs@.take(i + 1).drop_last() =~= docs@.take(i as int));
        assert(docs@.take(i + 1).last() == docs@[i as int]);
        let d = &docs[i];
        let path = text_or_default(&d.path);
        if scope_holds(style, &path, roots) {
            let h = HitFields {
                rank: i,
                doc_id: text_or_default(&d.doc_id),
                path,
                filename: text_or_default(&d.filename),
                extension: text_or_default(&d.extension),
                size: match d.size {
                    Some(s) => s,
                    None => 0,
                },
                modified_at: match d.modified_at {
                    Some(m) => m,
                    None => 0,
                },
            };
            let ghost before = out@.map_values(|h: HitFields| h@);
            out.push(h);
            assert(out@.map_values(|h: HitFields| h@) =~= before.push(hit_of(i, docs@[i as int])));
        }
        i = i + 1;
    }
    assert(docs@.take(docs.len() as int) =~= docs@);
    out
}

/// The reported total: the index's match count, or the number of hits kept
/// when that is larger.
pub fn total_hits(count: usize, kept: usize) -> (t: u64)
    ensures
        t == if count >= kept {
            count as u64
        } else {
            kept as u64
        },
{
    let c = count as u64;
    let k = kept as u64;
    if c >= k {
        c
    } else {
        k
    }
}

/// The number of results a search asks the index for.
pub const SEARCH_LIMIT: usize = 100;

/// What the index is asked for a user query.
pub struct SearchRequest {
    /// The query in the index's syntax.
    pub query: String,
    /// The largest number of hits wanted.
    pub limit: usize,
    /// The folders hits must lie in.
    pub roots: Vec<String>,
}

/// The request for a raw query when searching the registered folders:
/// `None`, so that nothing is searched, when no folder is enabled.
pub fn search_request(raw: &str, folders: &Vec<FolderRow>) -> (r: Option<SearchRequest>)
    ensures
        enabled_paths(folders@).len() == 0 <==> r is None,
        r matches Some(q) ==> {
            &&& q.query@ == tantivy_query_spec(parse_spec(raw@))
            &&& q.limit == 100
            &&& strs(q.roots@) == enabled_paths(folders@)
        },
{
    let roots = enabled_folder_paths(folders);
    if roots.len() == 0 {
        return None;
    }
    let parsed = parse(raw);
    let query = to_tantivy_query(&parsed);
    Some(SearchRequest { query, limit: SEARCH_LIMIT, roots })
}

/// The request for a raw query with a given limit and folders: the parsed
/// query in the index's syntax, the limit and the folders unchanged.
pub fn parsed_search_request(raw: &str, limit: usize, roots: Vec<String>) -> (r: SearchRequest)
    ensures
        r.query@ == tantivy_query_spec(parse_spec(raw@)),
        r.limit == limit,
        r.roots@ == roots@,
{
    let parsed = parse(raw);
    let query = to_tantivy_query(&parsed);
    SearchRequest { query, limit, roots }
}

/// The query text to hand the index's parser on the given attempt: the
/// query itself first, then, if the parser rejected it, the query with every
/// special character escaped; after that nothing, and the search matches no
/// document.
pub fn query_attempt(query: &str, attempt: usize) -> (r: Option<String>)
    ensures
        attempt == 0 ==> (r matches Some(q) && q@ == query@),
        attempt == 1 ==> (r matches Some(q) && q@ == escaped(query@)),
        attempt >= 2 ==> r is None,
{
    if attempt == 0 {
        let v = chars_of(query);
        Some(crate::strings::string_of(v.as_slice()))
    } else if attempt == 1 {
        Some(escape_term(query))
    } else {
        None
    }
}

/// `t` occurs in `s`.
pub open spec fn occurs(s: Seq<char>, t: Seq<char>) -> bool {
    exists|i: int| 0 <= i <= s.len() - t.len() && #[trigger] s.subrange(i, i + t.len()) == t
}

/// Whether `t` occurs in `s`.
fn occurs_in(s: &Vec<char>, t: &Vec<char>) -> (b: bool)
    ensures
        b == occurs(s@, t@),
{
    if t.len() > s.len() {
        return false;
    }
    let last = s.len() - t.len();
    let mut i: usize = 0;
    loop
        invariant
            t.len() <= s.len(),
            last == s.len() - t.len(),
            i <= last,
            forall|j: int| 0 <= j < i ==> #[trigger] s@.subrange(j, j + t.len()) != t@,
        decreases last - i,
    {
        let w = crate::strings::slice_chars(s, i, i + t.len());
        if crate::scanner::chars_eq(&w, t) {
            return true;
        }
        if i == last {
            return false;
        }
        i = i + 1;
    }
}

/// How many times opening the index is tried while another writer holds it.
pub const OPEN_RETRIES: usize = 10;

/// What to do after opening the index failed.
#[derive(PartialEq, Eq, Structural, Clone, Copy, Debug)]
pub enum OpenStep {
    /// Wait briefly and try again.
    Retry,
    /// Report the error.
    GiveUp,
}

/// The step after attempt number `attempt` (counted from 0) failed with
/// `msg`: retry while another writer holds the lock and attempts remain.
pub fn open_step(attempt: usize, msg: &str) -> (r: OpenStep)
    ensures
        r == OpenStep::Retry <==> (attempt + 1 < OPEN_RETRIES && (occurs(msg@, "LockBusy"@)
            || occurs(msg@, "already an `IndexWriter`"@))),
{
    if attempt < OPEN_RETRIES - 1 && index_lock_busy(msg) {
        OpenStep::Retry
    } else {
        OpenStep::GiveUp
    }
}

/// An error opening the index says that another writer holds its lock, so
/// opening is worth retrying.
pub fn index_lock_busy(msg: &str) -> (b: bool)
    ensures
        b == (occurs(msg@, "LockBusy"@) || occurs(msg@, "already an `IndexWriter`"@)),
{
    let m = chars_of(msg);
    let a = chars_of("LockBusy");
    let w = chars_of("already an `IndexWriter`");
    occurs_in(&m, &a) || occurs_in(&m, &w)
}

} // verus!
