//! The folder and file records kept in the state database, and the
//! decisions taken over them: finding a folder, the enabled search roots,
//! the folder that owns a path, and whether a stored file is unchanged.
use vstd::prelude::*;
use crate::paths::{under, under_chars, PathStyle};
use crate::query::strs;
use crate::strings::chars_of;

verus! {

/// A registered search folder.
pub struct FolderRow {
    pub id: i64,
    pub path: String,
    pub enabled: bool,
    pub file_count: i64,
    pub last_indexed_at: Option<i64>,
}

/// What the database holds for an indexed file.
pub struct FileMeta {
    pub path: String,
    pub size: u64,
    pub mtime: i64,
    pub status: String,
}

/// The position of the first folder with id `id`, or -1.
pub open spec fn folder_index(folders: Seq<FolderRow>, id: i64) -> int
    decreases folders.len(),
{
    if folders.len() == 0 {
        -1
    } else {
        let k = folder_index(folders.drop_last(), id);
        if k >= 0 {
            k
        } else if folders.last().id == id {
            folders.len() - 1
        } else {
            -1
        }
    }
}

pub proof fn lemma_folder_index(folders: Seq<FolderRow>, id: i64)
    ensures
        -1 <= folder_index(folders, id) < folders.len(),
        folder_index(folders, id) >= 0 ==> folders[folder_index(folders, id)].id == id,
        forall|j: int|
            0 <= j < folders.len() && (folder_index(folders, id) < 0 || j < folder_index(
                folders,
                id,
            )) ==> folders[j].id != id,
    decreases folders.len(),
{
    if folders.len() > 0 {
        lemma_folder_index(folders.drop_last(), id);
        assert forall|j: int|
            0 <= j < folders.len() && (folder_index(folders, id) < 0 || j < folder_index(
                folders,
                id,
            )) implies folders[j].id != id by {
            if j < folders.len() - 1 {
                assert(folders.drop_last()[j] == folders[j]);
            }
        }
    }
}

/// The first folder with id `id`.
pub fn find_folder(folders: &Vec<FolderRow>, id: i64) -> (r: Option<usize>)
    ensures
        match r {
            Some(k) => k as int == folder_index(folders@, id),
            None => folder_index(folders@, id) == -1,
        },
{
    proof {
        lemma_folder_index(folders@, id);
    }
    let mut i: usize = 0;
    while i < folders.len()
        invariant
            i <= folders.len(),
            forall|j: int| 0 <= j < i ==> folders@[j].id != id,
            -1 <= folder_index(folders@, id) < folders.len(),
            folder_index(folders@, id) >= 0 ==> folders@[folder_index(folders@, id)].id == id,
            forall|j: int|
                0 <= j < folders.len() && (folder_index(folders@, id) < 0 || j < folder_index(
                    folders@,
                    id,
                )) ==> folders@[j].id != id,
        decreases folders.len() - i,
    {
        if folders[i].id == id {
            return Some(i);
        }
        i = i + 1;
    }
    None
}

/// What reindexing folder `id` is refused with, if anything.
pub open spec fn reindex_check(folders: Seq<FolderRow>, id: i64) -> Result<int, Seq<char>> {
    let k = folder_index(folders, id);
    if k < 0 {
        Err("no such folder"@)
    } else if !folders[k].enabled {
        Err("비활성화된 폴더는 인덱싱할 수 없습니다"@)
    } else {
        Ok(k)
    }
}

/// The folder to reindex: refused when there is none with id `id` or it is
/// disabled.
pub fn reindex_target(folders: &Vec<FolderRow>, id: i64) -> (r: Result<usize, String>)
    ensures
        match r {
            Ok(k) => reindex_check(folders@, id) == Ok::<int, Seq<char>>(k as int),
            Err(e) => reindex_check(folders@, id) == Err::<int, Seq<char>>(e@),
        },
{
    proof {
        lemma_folder_index(folders@, id);
    }
    match find_folder(folders, id) {
        None => Err(crate::strings::string_of(chars_of("no such folder").as_slice())),
        Some(k) => {
            if !folders[k].enabled {
                Err(
                    crate::strings::string_of(
                        chars_of("비활성화된 폴더는 인덱싱할 수 없습니다").as_slice(),
                    ),
                )
            } else {
                Ok(k)
            }
        },
    }
}

/// The paths of the enabled folders, in order.
pub open spec fn enabled_paths(folders: Seq<FolderRow>) -> Seq<Seq<char>>
    decreases folders.len(),
{
    if folders.len() == 0 {
        Seq::empty()
    } else {
        let r = enabled_paths(folders.drop_last());
        if folders.last().enabled {
            r.push(folders.last().path@)
        } else {
            r
        }
    }
}

/// The paths of the enabled folders: the roots that searches cover and the
/// watcher follows.
pub fn enabled_folder_paths(folders: &Vec<FolderRow>) -> (r: Vec<String>)
    ensures
        strs(r@) == enabled_paths(folders@),
{
    let mut out: Vec<String> = Vec::new();
    let mut i: usize = 0;
    assert(strs(out@) =~= Seq::<Seq<char>>::empty());
    while i < folders.len()
        invariant
            i <= folders.len(),
            strs(out@) == enabled_paths(folders@.take(i as int)),
        decreases folders.len() - i,
    {
        assert(folders@.take(i + 1).drop_last() =~= folders@.take(i as int));
        assert(folders@.take(i + 1).last() == folders@[i as int]);
        if folders[i].enabled {
            let ghost before = out@;
            out.push(folders[i].path.clone());
            assert(strs(out@) =~= strs(before).push(folders@[i as int].path@));
        }
        i = i + 1;
    }
    assert(folders@.take(folders.len() as int) =~= folders@);
    out
}

/// The id of the first enabled folder that holds `path`.
pub open spec fn owner_of(style: PathStyle, path: Seq<char>, folders: Seq<FolderRow>) -> Option<i64>
    decreases folders.len(),
{
    if folders.len() == 0 {
        None
    } else {
        match owner_of(style, path, folders.drop_last()) {
            Some(id) => Some(id),
            None => if under(style, path, folders.last().path@) && folders.last().enabled {
                Some(folders.last().id)
            } else {
                None
            },
        }
    }
}

/// The folder that owns a changed file: the first enabled folder holding it.
pub fn owning_folder(style: PathStyle, path: &str, folders: &Vec<FolderRow>) -> (r: Option<i64>)
    ensures
        r == owner_of(style, path@, folders@),
{
    let p = chars_of(path);
    let mut i: usize = 0;
    while i < folders.len()
        invariant
            i <= folders.len(),
            p@ == path@,
            owner_of(style, path@, folders@.take(i as int)) is None,
        decreases folders.len() - i,
    {
        assert(folders@.take(i + 1).drop_last() =~= folders@.take(i as int));
        assert(folders@.take(i + 1).last() == folders@[i as int]);
        let f = chars_of(folders[i].path.as_str());
        if under_chars(&p, &f, style) && folders[i].enabled {
            proof {
                lemma_owner_found(style, path@, folders@, i as int);
            }
            return Some(folders[i].id);
        }
        i = i + 1;
    }
    assert(folders@.take(folders.len() as int) =~= folders@);
    None
}

pub proof fn lemma_owner_found(style: PathStyle, path: Seq<char>, folders: Seq<FolderRow>, k: int)
    requires
        0 <= k < folders.len(),
        owner_of(style, path, folders.take(k + 1)) == Some(folders[k].id),
    ensures
        owner_of(style, path, folders) == Some(folders[k].id),
{
    lemma_owner_take(style, path, folders, k + 1);
}

pub proof fn lemma_owner_take(style: PathStyle, path: Seq<char>, folders: Seq<FolderRow>, n: int)
    requires
        0 <= n <= folders.len(),
        owner_of(style, path, folders.take(n)) is Some,
    ensures
        owner_of(style, path, folders) == owner_of(style, path, folders.take(n)),
    decreases folders.len() - n,
{
    if n < folders.len() {
        assert(folders.take(n + 1).drop_last() =~= folders.take(n));
        lemma_owner_take(style, path, folders, n + 1);
    } else {
        assert(folders.take(n) =~= folders);
    }
}

/// A changed file needs no new index entry: the stored size and
/// modification time are the ones on disk.
pub fn unchanged(existing: &FileMeta, size: u64, mtime: i64) -> (b: bool)
    ensures
        b == (existing.size == size && existing.mtime == mtime),
{
    existing.size == size && existing.mtime == mtime
}

/// During an incremental pass a file is skipped when the database holds it
/// with the same size and modification time.
pub open spec fn skips(incremental: bool, stored: Option<FileMeta>, size: u64, mtime: i64) -> bool {
    incremental && match stored {
        Some(m) => m.size == size && m.mtime == mtime,
        None => false,
    }
}

/// Whether an indexing pass skips a file (see `skips`).
pub fn skip_file(incremental: bool, stored: &Option<FileMeta>, size: u64, mtime: i64) -> (b: bool)
    ensures
        b == skips(incremental, *stored, size, mtime),
{
    if !incremental {
        return false;
    }
    match stored {
        Some(m) => m.size == size && m.mtime == mtime,
        None => false,
    }
}

/// The total of the folders' file counts.
pub open spec fn count_sum(folders: Seq<FolderRow>) -> int
    decreases folders.len(),
{
    if folders.len() == 0 {
        0
    } else {
        count_sum(folders.drop_last()) + folders.last().file_count
    }
}

/// The total number of files in the folders, or `None` when a running
/// total leaves the range of `i64`.
pub fn total_files(folders: &Vec<FolderRow>) -> (r: Option<i64>)
    ensures
        r matches Some(t) ==> t == count_sum(folders@),
        r is None <==> exists|k: int|
            1 <= k <= folders.len() && !(i64::MIN <= #[trigger] count_sum(folders@.take(k))
                <= i64::MAX),
{
    let mut t: i64 = 0;
    let mut i: usize = 0;
    while i < folders.len()
        invariant
            i <= folders.len(),
            t == count_sum(folders@.take(i as int)),
            forall|k: int|
                1 <= k <= i ==> i64::MIN <= #[trigger] count_sum(folders@.take(k)) <= i64::MAX,
        decreases folders.len() - i,
    {
        assert(folders@.take(i + 1).drop_last() =~= folders@.take(i as int));
        assert(folders@.take(i + 1).last() == folders@[i as int]);
        match t.checked_add(folders[i].file_count) {
            Some(n) => {
                t = n;
            },
            None => {
                assert(!(i64::MIN <= count_sum(folders@.take(i + 1)) <= i64::MAX));
                return None;
            },
        }
        i = i + 1;
    }
    assert(folders@.take(folders.len() as int) =~= folders@);
    Some(t)
}

/// The folders that startup reconciliation re-indexes: the positions of the
/// enabled folders whose directory is present on disk, in order.
pub fn reconcile_folders(folders: &Vec<FolderRow>, present: &Vec<bool>) -> (r: Vec<usize>)
    requires
        present.len() == folders.len(),
    ensures
        forall|k: int|
            0 <= k < r.len() ==> #[trigger] r@[k] < folders.len() && folders@[r@[k] as int].enabled
                && present@[r@[k] as int],
        forall|k: int, l: int| 0 <= k < l < r.len() ==> r@[k] < r@[l],
        forall|j: int|
            0 <= j < folders.len() && folders@[j].enabled && present@[j] ==> r@.contains(j as usize),
{
    let mut out: Vec<usize> = Vec::new();
    let mut i: usize = 0;
    while i < folders.len()
        invariant
            i <= folders.len() == present.len(),
            forall|k: int|
                0 <= k < out.len() ==> #[trigger] out@[k] < i && folders@[out@[k] as int].enabled
                    && present@[out@[k] as int],
            forall|k: int, l: int| 0 <= k < l < out.len() ==> out@[k] < out@[l],
            forall|j: int|
                0 <= j < i && folders@[j].enabled && present@[j] ==> out@.contains(j as usize),
        decreases folders.len() - i,
    {
        let ghost before = out@;
        if folders[i].enabled && present[i] {
            out.push(i);
            assert(out@[out.len() - 1] == i);
            assert forall|j: int|
                0 <= j < i + 1 && folders@[j].enabled && present@[j] implies out@.contains(
                j as usize,
            ) by {
                if j < i {
                    let k = choose|k: int| 0 <= k < before.len() && before[k] == j as usize;
                    assert(out@[k] == j as usize);
                }
            }
        }
        i = i + 1;
    }
    out
}

/// The positions of the enabled folders, in order.
pub fn enabled_folders(folders: &Vec<FolderRow>) -> (r: Vec<usize>)
    ensures
        forall|k: int| 0 <= k < r.len() ==> #[trigger] r@[k] < folders.len() && folders@[r@[k] as int].enabled,
        forall|k: int, l: int| 0 <= k < l < r.len() ==> r@[k] < r@[l],
        forall|j: int| 0 <= j < folders.len() && folders@[j].enabled ==> r@.contains(j as usize),
{
    let mut out: Vec<usize> = Vec::new();
    let mut i: usize = 0;
    while i < folders.len()
        invariant
            i <= folders.len(),
            forall|k: int| 0 <= k < out.len() ==> #[trigger] out@[k] < i && folders@[out@[k] as int].enabled,
            forall|k: int, l: int| 0 <= k < l < out.len() ==> out@[k] < out@[l],
            forall|j: int| 0 <= j < i && folders@[j].enabled ==> out@.contains(j as usize),
        decreases folders.len() - i,
    {
        let ghost before = out@;
        if folders[i].enabled {
            out.push(i);
            assert(out@[out.len() - 1] == i);
            assert forall|j: int| 0 <= j < i + 1 && folders@[j].enabled implies out@.contains(
                j as usize,
            ) by {
                if j < i {
                    let k = choose|k: int| 0 <= k < before.len() && before[k] == j as usize;
                    assert(out@[k] == j as usize);
                }
            }
        }
        i = i + 1;
    }
    out
}

} // verus!
