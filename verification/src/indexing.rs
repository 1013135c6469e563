//! The bookkeeping of an indexing pass over one folder, and of the passes
//! over several folders: which stored files the pass must account for, the
//! counts of indexed, skipped and removed files, and the paths that a batch
//! of file-system events names.
use vstd::prelude::*;
use crate::paths::{under, under_chars, PathStyle};
use crate::query::strs;
use crate::scanner::chars_eq;
use crate::strings::chars_of;

verus! {

/// How many files a pass indexed, skipped as unchanged and removed.
#[derive(PartialEq, Eq, Structural, Clone, Copy, Debug)]
pub struct IndexOutcome {
    pub indexed: usize,
    pub skipped: usize,
    pub removed: usize,
}

/// The sequence with later repeats of an element left out.
pub open spec fn dedup(s: Seq<Seq<char>>) -> Seq<Seq<char>>
    decreases s.len(),
{
    if s.len() == 0 {
        s
    } else {
        let r = dedup(s.drop_last());
        if r.contains(s.last()) {
            r
        } else {
            r.push(s.last())
        }
    }
}

/// The sequence without the elements equal to `x`.
pub open spec fn without(s: Seq<Seq<char>>, x: Seq<char>) -> Seq<Seq<char>>
    decreases s.len(),
{
    if s.len() == 0 {
        s
    } else {
        let r = without(s.drop_last(), x);
        if s.last() == x {
            r
        } else {
            r.push(s.last())
        }
    }
}

/// The stored paths that lie in `folder`, in order, without repeats.
pub open spec fn paths_under(style: PathStyle, stored: Seq<(Seq<char>, Seq<char>)>, folder: Seq<char>) -> Seq<
    Seq<char>,
>
    decreases stored.len(),
{
    if stored.len() == 0 {
        Seq::empty()
    } else {
        let r = paths_under(style, stored.drop_last(), folder);
        if under(style, stored.last().0, folder) {
            r.push(stored.last().0)
        } else {
            r
        }
    }
}

/// A stored (path, document id) pair as sequences.
pub open spec fn pairs_view(v: Seq<(String, String)>) -> Seq<(Seq<char>, Seq<char>)> {
    v.map_values(|p: (String, String)| (p.0@, p.1@))
}

/// The state of one pass over a folder.
pub struct IndexRun {
    /// The number of files the scan found.
    pub total: usize,
    /// The scanned files handled so far.
    pub visited: usize,
    pub indexed: usize,
    pub skipped: usize,
    pub removed: usize,
    /// Stored paths under the folder that no scanned file has matched yet.
    pub known: Vec<String>,
}

impl IndexRun {
    /// The counters are consistent: every handled file was counted at most
    /// once, and each removal belongs to a stored path left unmatched.
    pub open spec fn wf(&self) -> bool {
        &&& self.visited <= self.total
        &&& self.indexed + self.skipped <= self.visited
        &&& self.removed <= self.known.len()
    }

    /// The counts so far.
    pub open spec fn outcome_spec(&self) -> IndexOutcome {
        IndexOutcome { indexed: self.indexed, skipped: self.skipped, removed: self.removed }
    }
}

/// `v` holds a string with the characters `s`.
fn holds(v: &Vec<String>, s: &Vec<char>) -> (r: bool)
    ensures
        r == strs(v@).contains(s@),
{
    let mut i: usize = 0;
    while i < v.len()
        invariant
            i <= v.len(),
            forall|j: int| 0 <= j < i ==> v@[j]@ != s@,
        decreases v.len() - i,
    {
        let c = chars_of(v[i].as_str());
        if chars_eq(&c, s) {
            assert(strs(v@)[i as int] == s@);
            return true;
        }
        i = i + 1;
    }
    assert(!strs(v@).contains(s@)) by {
        if strs(v@).contains(s@) {
            let k = choose|k: int| 0 <= k < strs(v@).len() && strs(v@)[k] == s@;
            assert(v@[k]@ == s@);
        }
    }
    false
}

/// The paths of a batch of file events to process now. While a pass is
/// running the batch waits: its paths join `pending` and nothing is
/// processed. Otherwise the waiting paths and the batch are processed
/// together, each path once in order of first appearance, and nothing is
/// left waiting.
pub fn batch_paths(busy: bool, pending: &mut Vec<String>, paths: &Vec<String>) -> (r: Vec<String>)
    ensures
        busy ==> r.len() == 0 && strs(final(pending)@) == strs(old(pending)@) + strs(paths@),
        !busy ==> strs(r@) == dedup(strs(old(pending)@) + strs(paths@)) && final(pending)@.len()
            == 0,
{
    let ghost start = strs(pending@);
    let mut i: usize = 0;
    while i < paths.len()
        invariant
            i <= paths.len(),
            strs(pending@) == start + strs(paths@).take(i as int),
        decreases paths.len() - i,
    {
        let ghost before = pending@;
        pending.push(paths[i].clone());
        assert(strs(pending@) =~= strs(before).push(paths@[i as int]@));
        i = i + 1;
        assert(start + strs(paths@).take(i as int) =~= (start + strs(paths@).take(i - 1)).push(
            paths@[i - 1]@,
        ));
    }
    assert(strs(paths@).take(paths.len() as int) =~= strs(paths@));
    if busy {
        Vec::new()
    } else {
        let r = unique_paths(pending);
        pending.clear();
        r
    }
}

/// The strings of `paths` with later repeats left out.
pub fn unique_paths(paths: &Vec<String>) -> (r: Vec<String>)
    ensures
        strs(r@) == dedup(strs(paths@)),
{
    let ghost pv = strs(paths@);
    let mut out: Vec<String> = Vec::new();
    let mut i: usize = 0;
    assert(strs(out@) =~= Seq::<Seq<char>>::empty());
    while i < paths.len()
        invariant
            i <= paths.len(),
            pv == strs(paths@),
            strs(out@) == dedup(pv.take(i as int)),
        decreases paths.len() - i,
    {
        assert(pv.take(i + 1).drop_last() =~= pv.take(i as int));
        assert(pv.take(i + 1).last() == paths@[i as int]@);
        let c = chars_of(paths[i].as_str());
        if !holds(&out, &c) {
            let ghost before = out@;
            out.push(paths[i].clone());
            assert(strs(out@) =~= strs(before).push(paths@[i as int]@));
        }
        i = i + 1;
    }
    assert(pv.take(paths.len() as int) =~= pv);
    out
}

/// `v` without the strings equal to `s`.
fn drop_path(v: &Vec<String>, s: &Vec<char>) -> (r: Vec<String>)
    ensures
        strs(r@) == without(strs(v@), s@),
        r.len() <= v.len(),
{
    let ghost vv = strs(v@);
    let mut out: Vec<String> = Vec::new();
    let mut i: usize = 0;
    assert(strs(out@) =~= Seq::<Seq<char>>::empty());
    while i < v.len()
        invariant
            i <= v.len(),
            vv == strs(v@),
            strs(out@) == without(vv.take(i as int), s@),
            out.len() <= i,
        decreases v.len() - i,
    {
        assert(vv.take(i + 1).drop_last() =~= vv.take(i as int));
        assert(vv.take(i + 1).last() == v@[i as int]@);
        let c = chars_of(v[i].as_str());
        if !chars_eq(&c, s) {
            let ghost before = out@;
            out.push(v[i].clone());
            assert(strs(out@) =~= strs(before).push(v@[i as int]@));
        }
        i = i + 1;
    }
    assert(vv.take(v.len() as int) =~= vv);
    out
}

/// The stored paths that lie in `folder`.
pub fn stored_paths_under(style: PathStyle, stored: &Vec<(String, String)>, folder: &str) -> (r: Vec<String>)
    ensures
        strs(r@) == paths_under(style, pairs_view(stored@), folder@),
{
    let ghost sv = pairs_view(stored@);
    let f = chars_of(folder);
    let mut out: Vec<String> = Vec::new();
    let mut i: usize = 0;
    assert(strs(out@) =~= Seq::<Seq<char>>::empty());
    while i < stored.len()
        invariant
            i <= stored.len(),
            sv == pairs_view(stored@),
            f@ == folder@,
            strs(out@) == paths_under(style, sv.take(i as int), folder@),
        decreases stored.len() - i,
    {
        assert(sv.take(i + 1).drop_last() =~= sv.take(i as int));
        assert(sv.take(i + 1).last() == (stored@[i as int].0@, stored@[i as int].1@));
        let c = chars_of(stored[i].0.as_str());
        if under_chars(&c, &f, style) {
            let ghost before = out@;
            out.push(stored[i].0.clone());
            assert(strs(out@) =~= strs(before).push(stored@[i as int].0@));
        }
        i = i + 1;
    }
    assert(sv.take(stored.len() as int) =~= sv);
    out
}

impl IndexRun {
    /// A pass over `total` scanned files of `folder`, accounting for the
    /// stored files under the folder.
    pub fn start(style: PathStyle, total: usize, stored: &Vec<(String, String)>, folder: &str) -> (r: IndexRun)
        ensures
            r.wf(),
            r.total == total,
            r.visited == 0,
            r.outcome_spec() == (IndexOutcome { indexed: 0, skipped: 0, removed: 0 }),
            strs(r.known@) == dedup(paths_under(style, pairs_view(stored@), folder@)),
    {
        let under_folder = stored_paths_under(style, stored, folder);
        let known = unique_paths(&under_folder);
        IndexRun { total, visited: 0, indexed: 0, skipped: 0, removed: 0, known }
    }

    /// A scanned file is being handled: it is no longer unmatched.
    pub fn visit(&mut self, path: &str)
        requires
            old(self).wf(),
            old(self).visited < old(self).total,
            old(self).removed == 0,
        ensures
            final(self).wf(),
            final(self).visited == old(self).visited + 1,
            final(self).total == old(self).total,
            final(self).outcome_spec() == old(self).outcome_spec(),
            strs(final(self).known@) == without(strs(old(self).known@), path@),
    {
        let p = chars_of(path);
        self.known = drop_path(&self.known, &p);
        self.visited = self.visited + 1;
    }

    /// The file just visited was skipped as unchanged.
    pub fn record_skipped(&mut self)
        requires
            old(self).wf(),
            old(self).indexed + old(self).skipped < old(self).visited,
        ensures
            final(self).wf(),
            final(self).skipped == old(self).skipped + 1,
            final(self).indexed == old(self).indexed,
            final(self).removed == old(self).removed,
            final(self).visited == old(self).visited,
            final(self).total == old(self).total,
            final(self).known == old(self).known,
    {
        self.skipped = self.skipped + 1;
    }

    /// The file just visited was (re)indexed.
    pub fn record_indexed(&mut self)
        requires
            old(self).wf(),
            old(self).indexed + old(self).skipped < old(self).visited,
        ensures
            final(self).wf(),
            final(self).indexed == old(self).indexed + 1,
            final(self).skipped == old(self).skipped,
            final(self).removed == old(self).removed,
            final(self).visited == old(self).visited,
            final(self).total == old(self).total,
            final(self).known == old(self).known,
    {
        self.indexed = self.indexed + 1;
    }

    /// One of the unmatched stored files was gone from disk and removed.
    pub fn record_removed(&mut self)
        requires
            old(self).wf(),
            old(self).removed < old(self).known.len(),
        ensures
            final(self).wf(),
            final(self).removed == old(self).removed + 1,
            final(self).indexed == old(self).indexed,
            final(self).skipped == old(self).skipped,
            final(self).visited == old(self).visited,
            final(self).total == old(self).total,
            final(self).known == old(self).known,
    {
        self.removed = self.removed + 1;
    }

    /// The counts of the pass.
    pub fn outcome(&self) -> (o: IndexOutcome)
        ensures
            o == self.outcome_spec(),
    {
        IndexOutcome { indexed: self.indexed, skipped: self.skipped, removed: self.removed }
    }
}

/// Progress is reported for the first file and every 25th after it.
pub fn progress_due(i: usize) -> (b: bool)
    ensures
        b == (i % 25 == 0),
{
    i % 25 == 0
}

impl IndexOutcome {
    /// Adds another pass's counts to these.
    pub fn add(&mut self, other: &IndexOutcome)
        requires
            old(self).indexed + other.indexed <= usize::MAX,
            old(self).skipped + other.skipped <= usize::MAX,
            old(self).removed + other.removed <= usize::MAX,
        ensures
            final(self).indexed == old(self).indexed + other.indexed,
            final(self).skipped == old(self).skipped + other.skipped,
            final(self).removed == old(self).removed + other.removed,
    {
        self.indexed = self.indexed + other.indexed;
        self.skipped = self.skipped + other.skipped;
        self.removed = self.removed + other.removed;
    }
}

/// The elements of `ids` that `known` does not hold, in order.
pub open spec fn not_in(ids: Seq<Seq<char>>, known: Seq<Seq<char>>) -> Seq<Seq<char>>
    decreases ids.len(),
{
    if ids.len() == 0 {
        ids
    } else {
        let r = not_in(ids.drop_last(), known);
        if known.contains(ids.last()) {
            r
        } else {
            r.push(ids.last())
        }
    }
}

/// The indexed document ids that the database does not know: documents
/// left behind in the index, to be pruned at startup.
pub fn stale_ids(indexed: &Vec<String>, known: &Vec<String>) -> (r: Vec<String>)
    ensures
        strs(r@) == not_in(strs(indexed@), strs(known@)),
{
    let ghost iv = strs(indexed@);
    let mut out: Vec<String> = Vec::new();
    let mut i: usize = 0;
    assert(strs(out@) =~= Seq::<Seq<char>>::empty());
    while i < indexed.len()
        invariant
            i <= indexed.len(),
            iv == strs(indexed@),
            strs(out@) == not_in(iv.take(i as int), strs(known@)),
        decreases indexed.len() - i,
    {
        assert(iv.take(i + 1).drop_last() =~= iv.take(i as int));
        assert(iv.take(i + 1).last() == indexed@[i as int]@);
        let c = chars_of(indexed[i].as_str());
        if !holds(known, &c) {
            let ghost before = out@;
            out.push(indexed[i].clone());
            assert(strs(out@) =~= strs(before).push(indexed@[i as int]@));
        }
        i = i + 1;
    }
    assert(iv.take(indexed.len() as int) =~= iv);
    out
}

} // verus!
