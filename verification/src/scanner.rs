//! Which directory entries a scan keeps: the exclusion rules on path
//! components, the skipped file names and the supported extensions.
use vstd::prelude::*;
use crate::paths::{
    after_prefix, lemma_prefix_len, prefix_len, prefix_len_of, extension_chars, extension_spec, filename_spec, is_sep,
    main_sep, PathStyle,
};
use crate::strings::slice_chars;
use crate::strings::{chars_of, has_prefix, string_of};
use crate::query::strs;

verus! {

/// A file found by a scan.
pub struct ScannedFile {
    pub path: String,
    pub size: u64,
    pub mtime: i64,
    pub extension: String,
}

/// The pieces of `s` between separators, empty pieces included.
pub open spec fn pieces(style: PathStyle, s: Seq<char>) -> Seq<Seq<char>>
    decreases s.len(),
{
    if s.len() == 0 {
        seq![Seq::empty()]
    } else {
        let p = pieces(style, s.drop_last());
        if is_sep(style, s.last()) {
            p.push(Seq::empty())
        } else {
            p.drop_last().push(p.last().push(s.last()))
        }
    }
}

pub proof fn lemma_pieces_nonempty(style: PathStyle, s: Seq<char>)
    ensures
        pieces(style, s).len() >= 1,
    decreases s.len(),
{
    if s.len() > 0 {
        lemma_pieces_nonempty(style, s.drop_last());
    }
}

/// The pieces that name a directory or file (neither empty nor `.`).
pub open spec fn normal_pieces(p: Seq<Seq<char>>) -> Seq<Seq<char>>
    decreases p.len(),
{
    if p.len() == 0 {
        p
    } else {
        let r = normal_pieces(p.drop_last());
        if p.last().len() == 0 || p.last() == seq!['.'] {
            r
        } else {
            r.push(p.last())
        }
    }
}

/// The prefix of `s` as a component, if it has one.
pub open spec fn prefix_part(style: PathStyle, s: Seq<char>) -> Seq<Seq<char>> {
    if prefix_len(style, s) > 0 {
        seq![s.subrange(0, prefix_len(style, s))]
    } else {
        Seq::empty()
    }
}

/// The components of a path without prefix: the main separator for
/// an absolute path, `.` when a relative path starts with a `.` component,
/// then every component that is neither empty nor `.`.
pub open spec fn body_components(style: PathStyle, b: Seq<char>) -> Seq<Seq<char>> {
    let p = pieces(style, b);
    let head: Seq<Seq<char>> = if b.len() > 0 && is_sep(style, b[0]) {
        seq![seq![main_sep(style)]]
    } else if p[0] == seq!['.'] {
        seq![seq!['.']]
    } else {
        Seq::empty()
    };
    head + normal_pieces(p)
}

/// The strings of `Path::components` for `s`: the prefix, if any,
/// then the components of the rest.
pub open spec fn components(style: PathStyle, s: Seq<char>) -> Seq<Seq<char>> {
    prefix_part(style, s) + body_components(style, after_prefix(style, s))
}

/// The directory and file names that a scan never enters or keeps.
pub open spec fn default_excludes() -> Seq<Seq<char>> {
    seq![
        "node_modules"@,
        ".git"@,
        "target"@,
        "dist"@,
        "build"@,
        ".cache"@,
        ".DS_Store"@,
    ]
}

/// Some component of `path` is a default exclude or one of `extra`.
pub open spec fn excluded(style: PathStyle, path: Seq<char>, extra: Seq<Seq<char>>) -> bool {
    exists|i: int|
        0 <= i < components(style, path).len() && (default_excludes().contains(
            #[trigger] components(style, path)[i],
        ) || extra.contains(components(style, path)[i]))
}

/// The extensions that the text extractors handle.
pub open spec fn supported(ext: Seq<char>) -> bool {
    ||| ext == "txt"@
    ||| ext == "md"@
    ||| ext == "csv"@
    ||| ext == "json"@
    ||| ext == "xml"@
    ||| ext == "html"@
    ||| ext == "htm"@
    ||| ext == "docx"@
    ||| ext == "pptx"@
    ||| ext == "xlsx"@
    ||| ext == "pdf"@
    ||| ext == "doc"@
    ||| ext == "ppt"@
    ||| ext == "xls"@
}

/// A scan keeps a regular file unless its name starts with `~$` (an Office
/// lock file) or is `.DS_Store`, and only when its extension is supported.
pub open spec fn keeps(style: PathStyle, path: Seq<char>) -> bool {
    let name = filename_spec(style, path);
    &&& !has_prefix(name, "~$"@)
    &&& name != ".DS_Store"@
    &&& supported(extension_spec(style, path))
}

/// `a` and `b` hold the same characters.
pub fn chars_eq(a: &Vec<char>, b: &Vec<char>) -> (r: bool)
    ensures
        r == (a@ == b@),
{
    if a.len() != b.len() {
        return false;
    }
    let mut i: usize = 0;
    while i < a.len()
        invariant
            i <= a.len() == b.len(),
            forall|j: int| 0 <= j < i ==> a@[j] == b@[j],
        decreases a.len() - i,
    {
        if a[i] != b[i] {
            return false;
        }
        i = i + 1;
    }
    assert(a@ =~= b@);
    true
}

/// `v` holds the characters of the literal `s`.
fn is_literal(v: &Vec<char>, s: &str) -> (r: bool)
    ensures
        r == (v@ == s@),
{
    let l = chars_of(s);
    chars_eq(v, &l)
}

/// The pieces of `v` between separators.
fn split_on(v: &Vec<char>, style: PathStyle) -> (r: Vec<Vec<char>>)
    ensures
        r@.map_values(|w: Vec<char>| w@) == pieces(style, v@),
{
    let mut out: Vec<Vec<char>> = Vec::new();
    let mut cur: Vec<char> = Vec::new();
    let mut i: usize = 0;
    assert(pieces(style, v@.take(0)) =~= seq![Seq::<char>::empty()]);
    while i < v.len()
        invariant
            i <= v.len(),
            pieces(style, v@.take(i as int)) == out@.map_values(|w: Vec<char>| w@).push(cur@),
        decreases v.len() - i,
    {
        assert(v@.take(i + 1).drop_last() =~= v@.take(i as int));
        assert(v@.take(i + 1).last() == v@[i as int]);
        let c = v[i];
        let ghost om = out@.map_values(|w: Vec<char>| w@);
        let ghost old_cur = cur@;
        if c == '/' || (style == PathStyle::Windows && c == '\\') {
            out.push(cur);
            cur = Vec::new();
            assert(out@.map_values(|w: Vec<char>| w@) =~= om.push(old_cur));
        } else {
            cur.push(c);
            assert(om.push(old_cur).drop_last() =~= om);
        }
        i = i + 1;
    }
    assert(v@.take(v.len() as int) =~= v@);
    let ghost om = out@.map_values(|w: Vec<char>| w@);
    let ghost last = cur@;
    out.push(cur);
    assert(out@.map_values(|w: Vec<char>| w@) =~= om.push(last));
    out
}

/// The components of a path without its prefix.
fn body_components_of(v: &Vec<char>, style: PathStyle) -> (r: Vec<Vec<char>>)
    ensures
        r@.map_values(|w: Vec<char>| w@) == body_components(style, v@),
{
    let p = split_on(v, style);
    let ghost pv = p@.map_values(|w: Vec<char>| w@);
    proof {
        lemma_pieces_nonempty(style, v@);
    }
    let mut out: Vec<Vec<char>> = Vec::new();
    if v.len() > 0 && (v[0] == '/' || (style == PathStyle::Windows && v[0] == '\\')) {
        let mut root: Vec<char> = Vec::new();
        let sep = if style == PathStyle::Windows {
            '\\'
        } else {
            '/'
        };
        root.push(sep);
        out.push(root);
        assert(out@.map_values(|w: Vec<char>| w@) =~= seq![seq![main_sep(style)]]);
    } else if p[0].len() == 1 && p[0][0] == '.' {
        let mut d: Vec<char> = Vec::new();
        d.push('.');
        assert(p@[0]@ =~= seq!['.']);
        out.push(d);
        assert(out@.map_values(|w: Vec<char>| w@) =~= seq![seq!['.']]);
    } else {
        assert(p@[0]@ != seq!['.']) by {
            if p@[0]@ =~= seq!['.'] {
                assert(p@[0]@[0] == '.');
            }
        }
        assert(out@.map_values(|w: Vec<char>| w@) =~= Seq::<Seq<char>>::empty());
    }
    let ghost head = out@.map_values(|w: Vec<char>| w@);
    let mut i: usize = 0;
    while i < p.len()
        invariant
            i <= p.len(),
            pv == p@.map_values(|w: Vec<char>| w@),
            out@.map_values(|w: Vec<char>| w@) == head + normal_pieces(pv.take(i as int)),
        decreases p.len() - i,
    {
        assert(pv.take(i + 1).drop_last() =~= pv.take(i as int));
        assert(pv.take(i + 1).last() == p@[i as int]@);
        let is_dot = p[i].len() == 1 && p[i][0] == '.';
        assert(is_dot <==> p@[i as int]@ == seq!['.']) by {
            if p@[i as int]@ =~= seq!['.'] {
                assert(p@[i as int]@[0] == '.');
            }
            if is_dot {
                assert(p@[i as int]@ =~= seq!['.']);
            }
        }
        if p[i].len() > 0 && !is_dot {
            let ghost before = out@.map_values(|w: Vec<char>| w@);
            out.push(p[i].clone());
            assert(out@.map_values(|w: Vec<char>| w@) =~= before.push(p@[i as int]@));
        }
        i = i + 1;
    }
    assert(pv.take(p.len() as int) =~= pv);
    out
}

/// The component strings of a path.
fn path_components(v: &Vec<char>, style: PathStyle) -> (r: Vec<Vec<char>>)
    ensures
        r@.map_values(|w: Vec<char>| w@) == components(style, v@),
{
    let d = prefix_len_of(v, style);
    proof {
        lemma_prefix_len(style, v@);
    }
    let body = slice_chars(v, d, v.len());
    let rest = body_components_of(&body, style);
    let mut out: Vec<Vec<char>> = Vec::new();
    if d > 0 {
        let prefix = slice_chars(v, 0, d);
        out.push(prefix);
    }
    assert(out@.map_values(|w: Vec<char>| w@) =~= prefix_part(style, v@));
    let ghost front = out@.map_values(|w: Vec<char>| w@);
    let ghost rv = rest@.map_values(|w: Vec<char>| w@);
    let mut i: usize = 0;
    while i < rest.len()
        invariant
            i <= rest.len(),
            rv == rest@.map_values(|w: Vec<char>| w@),
            out@.map_values(|w: Vec<char>| w@) == front + rv.take(i as int),
        decreases rest.len() - i,
    {
        let ghost before = out@.map_values(|w: Vec<char>| w@);
        out.push(rest[i].clone());
        assert(out@.map_values(|w: Vec<char>| w@) =~= before.push(rest@[i as int]@));
        i = i + 1;
        assert(front + rv.take(i as int) =~= (front + rv.take(i - 1)).push(rv[i - 1]));
    }
    assert(rv.take(rest.len() as int) =~= rv);
    out
}

/// `v` is one of the default excludes.
fn is_default_exclude(v: &Vec<char>) -> (r: bool)
    ensures
        r == default_excludes().contains(v@),
{
    let r = is_literal(v, "node_modules") || is_literal(v, ".git") || is_literal(v, "target")
        || is_literal(v, "dist") || is_literal(v, "build") || is_literal(v, ".cache")
        || is_literal(v, ".DS_Store");
    let ghost d = default_excludes();
    assert(d[0] == "node_modules"@ && d[1] == ".git"@ && d[2] == "target"@ && d[3] == "dist"@
        && d[4] == "build"@ && d[5] == ".cache"@ && d[6] == ".DS_Store"@);
    if r {
        assert(d.contains(v@));
    } else {
        assert(!d.contains(v@)) by {
            if d.contains(v@) {
                let k = choose|k: int| 0 <= k < d.len() && d[k] == v@;
                assert(0 <= k < 7);
            }
        }
    }
    r
}

/// `v` is one of `extra`.
fn is_extra(v: &Vec<char>, extra: &Vec<String>) -> (r: bool)
    ensures
        r == strs(extra@).contains(v@),
{
    let mut i: usize = 0;
    while i < extra.len()
        invariant
            i <= extra.len(),
            forall|j: int| 0 <= j < i ==> extra@[j]@ != v@,
        decreases extra.len() - i,
    {
        let e = chars_of(extra[i].as_str());
        if chars_eq(v, &e) {
            assert(strs(extra@)[i as int] == v@);
            return true;
        }
        i = i + 1;
    }
    assert(!strs(extra@).contains(v@)) by {
        if strs(extra@).contains(v@) {
            let k = choose|k: int| 0 <= k < strs(extra@).len() && strs(extra@)[k] == v@;
            assert(extra@[k]@ == v@);
        }
    }
    false
}

/// `is_excluded` under the rules of `style`.
pub fn is_excluded_on(style: PathStyle, path: &str, extra: &Vec<String>) -> (r: bool)
    ensures
        r == excluded(style, path@, strs(extra@)),
{
    let v = chars_of(path);
    let comps = path_components(&v, style);
    let ghost cv = comps@.map_values(|w: Vec<char>| w@);
    let mut i: usize = 0;
    while i < comps.len()
        invariant
            i <= comps.len(),
            cv == comps@.map_values(|w: Vec<char>| w@),
            cv == components(style, path@),
            v@ == path@,
            forall|j: int|
                0 <= j < i ==> !(default_excludes().contains(cv[j]) || strs(extra@).contains(
                    cv[j],
                )),
        decreases comps.len() - i,
    {
        if is_default_exclude(&comps[i]) || is_extra(&comps[i], extra) {
            assert(default_excludes().contains(components(style, path@)[i as int]) || strs(
                extra@,
            ).contains(components(style, path@)[i as int]));
            return true;
        }
        i = i + 1;
    }
    false
}

/// True when a component of `path` is a default exclude or one of `extra`,
/// the path being split under the host's rules.
pub fn is_excluded(path: &str, extra: &Vec<String>) -> (r: bool)
    ensures
        r == excluded(PathStyle::Unix, path@, strs(extra@)) || r == excluded(
            PathStyle::Windows,
            path@,
            strs(extra@),
        ),
{
    is_excluded_on(crate::paths::host_style(), path, extra)
}

/// `ext` is one that the text extractors handle.
pub fn supported_extension(ext: &str) -> (r: bool)
    ensures
        r == supported(ext@),
{
    let v = chars_of(ext);
    is_literal(&v, "txt") || is_literal(&v, "md") || is_literal(&v, "csv") || is_literal(
        &v,
        "json",
    ) || is_literal(&v, "xml") || is_literal(&v, "html") || is_literal(&v, "htm") || is_literal(
        &v,
        "docx",
    ) || is_literal(&v, "pptx") || is_literal(&v, "xlsx") || is_literal(&v, "pdf") || is_literal(
        &v,
        "doc",
    ) || is_literal(&v, "ppt") || is_literal(&v, "xls")
}

/// Whether a scan keeps the regular file at `path`, and if so its
/// lower-cased extension.
pub fn accepted_extension(style: PathStyle, path: &str) -> (r: Option<String>)
    ensures
        r is Some <==> keeps(style, path@),
        r matches Some(e) ==> e@ == extension_spec(style, path@),
{
    let name = crate::paths::filename_on(style, path);
    let nv = chars_of(name.as_str());
    let lock = chars_of("~$");
    if crate::query::starts_with(&nv, &lock) || is_literal(&nv, ".DS_Store") {
        return None;
    }
    let v = chars_of(path);
    let e = extension_chars(&v, style);
    let es = string_of(e.as_slice());
    if supported_extension(es.as_str()) {
        Some(es)
    } else {
        None
    }
}

/// Whether a changed file reported by the watcher is one a scan would
/// keep: no component of its path is a default exclude and the scan keeps
/// its name and extension. When it is, its lower-cased extension.
pub fn watched_file(style: PathStyle, path: &str) -> (r: Option<String>)
    ensures
        r is Some <==> (!excluded(style, path@, Seq::empty()) && keeps(style, path@)),
        r matches Some(e) ==> e@ == extension_spec(style, path@),
{
    let none: Vec<String> = Vec::new();
    assert(strs(none@) =~= Seq::<Seq<char>>::empty());
    if is_excluded_on(style, path, &none) {
        return None;
    }
    accepted_extension(style, path)
}

} // verus!
