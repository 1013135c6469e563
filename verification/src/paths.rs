//! Path helpers shared by the scanner, the watcher and the search filter.
//!
//! Paths follow the rules of `std::path` on the host: on Unix `/` is the only
//! separator; on Windows `\` separates components too, a leading drive
//! (`C:`), UNC share (`\\server\share`), device or verbatim prefix is a
//! prefix rather than components, and folder containment is decided on
//! lower-cased text with `\` as the separator. Inside verbatim (`\\?\`)
//! paths `/` is taken as a separator as well.
use vstd::prelude::*;
use crate::strings::{
    ascii_lower, chars_of, has_prefix, lower_ascii, lowercase, slice_chars, string_of, to_lowercase,
};

verus! {

/// The path rules of a platform.
#[derive(PartialEq, Eq, Structural, Clone, Copy, Debug)]
pub enum PathStyle {
    /// `/` separates components; names compare exactly.
    Unix,
    /// `/` and `\` separate components, a drive, share, device or verbatim
    /// prefix may lead, and folder paths compare without regard to case.
    Windows,
}

/// `c` separates path components.
pub open spec fn is_sep(style: PathStyle, c: char) -> bool {
    c == '/' || (style == PathStyle::Windows && c == '\\')
}

/// The platform's preferred separator (`std::path::MAIN_SEPARATOR`).
pub open spec fn main_sep(style: PathStyle) -> char {
    if style == PathStyle::Windows {
        '\\'
    } else {
        '/'
    }
}

/// Position of the last separator in `s`, or -1 when `s` holds none.
pub open spec fn last_sep_index(style: PathStyle, s: Seq<char>) -> int
    decreases s.len(),
{
    if s.len() == 0 {
        -1
    } else if is_sep(style, s.last()) {
        s.len() - 1
    } else {
        last_sep_index(style, s.drop_last())
    }
}

pub proof fn lemma_last_sep_index(style: PathStyle, s: Seq<char>)
    ensures
        -1 <= last_sep_index(style, s) < s.len(),
        last_sep_index(style, s) >= 0 ==> is_sep(style, s[last_sep_index(style, s)]),
        forall|i: int| last_sep_index(style, s) < i < s.len() ==> !is_sep(style, s[i]),
    decreases s.len(),
{
    if s.len() > 0 && !is_sep(style, s.last()) {
        lemma_last_sep_index(style, s.drop_last());
        assert forall|i: int| last_sep_index(style, s) < i < s.len() implies !is_sep(style, s[i]) by {
            if i < s.len() - 1 {
                assert(s.drop_last()[i] == s[i]);
            }
        }
    }
}

/// An ASCII letter.
pub open spec fn is_ascii_alpha(c: char) -> bool {
    ('a' <= c && c <= 'z') || ('A' <= c && c <= 'Z')
}

/// The position of the first separator in `s` at or after `i`, or the
/// length of `s` when there is none.
pub open spec fn next_sep(style: PathStyle, s: Seq<char>, i: int) -> int
    decreases s.len() - i,
{
    if i >= s.len() {
        s.len() as int
    } else if is_sep(style, s[i]) {
        i
    } else {
        next_sep(style, s, i + 1)
    }
}

pub proof fn lemma_next_sep(style: PathStyle, s: Seq<char>, i: int)
    requires
        0 <= i <= s.len(),
    ensures
        i <= next_sep(style, s, i) <= s.len(),
        next_sep(style, s, i) < s.len() ==> is_sep(style, s[next_sep(style, s, i)]),
        forall|j: int| i <= j < next_sep(style, s, i) ==> !is_sep(style, s[j]),
    decreases s.len() - i,
{
    if i < s.len() && !is_sep(style, s[i]) {
        lemma_next_sep(style, s, i + 1);
    }
}

/// The end of the prefix after `\\?\` (at position 4): `UNC\server\share`
/// for a verbatim UNC path, else the one component that follows.
pub open spec fn verbatim_end(style: PathStyle, s: Seq<char>) -> int {
    let a = next_sep(style, s, 4);
    if s.subrange(4, a) == seq!['U', 'N', 'C'] {
        let b = if a < s.len() {
            next_sep(style, s, a + 1)
        } else {
            a
        };
        if b < s.len() {
            next_sep(style, s, b + 1)
        } else {
            b
        }
    } else {
        a
    }
}

/// The end of a `\\server\share` prefix, or 0 when the server or the share
/// is missing.
pub open spec fn unc_end(style: PathStyle, s: Seq<char>) -> int {
    let a = next_sep(style, s, 2);
    if a == 2 || a >= s.len() {
        0
    } else {
        let b = next_sep(style, s, a + 1);
        if b == a + 1 {
            0
        } else {
            b
        }
    }
}

/// Length of the prefix that leads `s` on Windows, or 0: a drive (`C:`), a
/// UNC share (`\\server\share`), a device (`\\.\COM1`) or a verbatim
/// prefix (`\\?\name`, `\\?\C:`, `\\?\UNC\server\share`).
pub open spec fn prefix_len(style: PathStyle, s: Seq<char>) -> int {
    if style != PathStyle::Windows {
        0
    } else if s.len() >= 2 && is_sep(style, s[0]) && is_sep(style, s[1]) {
        if s.len() >= 4 && s[2] == '?' && is_sep(style, s[3]) {
            verbatim_end(style, s)
        } else if s.len() >= 4 && s[2] == '.' && is_sep(style, s[3]) {
            next_sep(style, s, 4)
        } else {
            unc_end(style, s)
        }
    } else if s.len() >= 2 && s[1] == ':' && is_ascii_alpha(s[0]) {
        2
    } else {
        0
    }
}

pub proof fn lemma_prefix_len(style: PathStyle, s: Seq<char>)
    ensures
        0 <= prefix_len(style, s) <= s.len(),
        prefix_len(style, s) > 0 ==> style == PathStyle::Windows,
{
    if style == PathStyle::Windows && s.len() >= 2 && is_sep(style, s[0]) && is_sep(style, s[1]) {
        if s.len() >= 4 && (s[2] == '?' || s[2] == '.') && is_sep(style, s[3]) {
            lemma_next_sep(style, s, 4);
            let a = next_sep(style, s, 4);
            if a < s.len() {
                lemma_next_sep(style, s, a + 1);
                let b = next_sep(style, s, a + 1);
                if b < s.len() {
                    lemma_next_sep(style, s, b + 1);
                }
            }
        } else {
            lemma_next_sep(style, s, 2);
            let a = next_sep(style, s, 2);
            if a < s.len() {
                lemma_next_sep(style, s, a + 1);
            }
        }
    }
}

/// `s` without its prefix.
pub open spec fn after_prefix(style: PathStyle, s: Seq<char>) -> Seq<char> {
    s.subrange(prefix_len(style, s), s.len() as int)
}

/// Position of the last `c` in `s`, or -1 when `s` holds none.
pub open spec fn last_index_of(s: Seq<char>, c: char) -> int
    decreases s.len(),
{
    if s.len() == 0 {
        -1
    } else if s.last() == c {
        s.len() - 1
    } else {
        last_index_of(s.drop_last(), c)
    }
}

pub proof fn lemma_last_index_of(s: Seq<char>, c: char)
    ensures
        -1 <= last_index_of(s, c) < s.len(),
        last_index_of(s, c) >= 0 ==> s[last_index_of(s, c)] == c,
        forall|i: int| last_index_of(s, c) < i < s.len() ==> s[i] != c,
    decreases s.len(),
{
    if s.len() > 0 && s.last() != c {
        lemma_last_index_of(s.drop_last(), c);
        assert forall|i: int| last_index_of(s, c) < i < s.len() implies s[i] != c by {
            if i < s.len() - 1 {
                assert(s.drop_last()[i] == s[i]);
            }
        }
    }
}

/// The last path component that is neither empty nor `.`, as
/// `Path::components().next_back()` finds it (the leading separator of an
/// absolute path and a `.` standing first are never `Normal` components).
pub open spec fn last_component(style: PathStyle, s: Seq<char>) -> Option<Seq<char>>
    decreases s.len(),
{
    let k = last_sep_index(style, s) + 1;
    let seg = s.subrange(k, s.len() as int);
    if seg.len() == 0 || seg == seq!['.'] {
        if k <= 0 {
            None
        } else {
            proof {
                lemma_last_sep_index(style, s);
            }
            last_component(style, s.subrange(0, k - 1))
        }
    } else {
        Some(seg)
    }
}

/// The last component is a non-empty, separator-free piece of `s`, other
/// than `.`.
pub proof fn lemma_last_component(style: PathStyle, s: Seq<char>)
    ensures
        last_component(style, s) matches Some(seg) ==> {
            &&& seg.len() > 0
            &&& seg != seq!['.']
            &&& forall|i: int| 0 <= i < seg.len() ==> !is_sep(style, #[trigger] seg[i])
            &&& forall|i: int| 0 <= i < seg.len() ==> s.contains(#[trigger] seg[i])
        },
    decreases s.len(),
{
    lemma_last_sep_index(style, s);
    let k = last_sep_index(style, s) + 1;
    let seg = s.subrange(k, s.len() as int);
    if seg.len() == 0 || seg == seq!['.'] {
        if k > 0 {
            let t = s.subrange(0, k - 1);
            lemma_last_component(style, t);
            if let Some(g) = last_component(style, t) {
                assert forall|i: int| 0 <= i < g.len() implies s.contains(#[trigger] g[i]) by {
                    assert(t.contains(g[i]));
                    let j = choose|j: int| 0 <= j < t.len() && t[j] == g[i];
                    assert(s[j] == t[j]);
                }
            }
        }
    } else {
        assert forall|i: int| 0 <= i < seg.len() implies !is_sep(style, #[trigger] seg[i])
            && s.contains(seg[i]) by {
            assert(seg[i] == s[k + i]);
        }
    }
}

/// `Path::file_name`: the last component after the prefix, unless it
/// is `..` or missing.
pub open spec fn file_name(style: PathStyle, s: Seq<char>) -> Option<Seq<char>> {
    match last_component(style, after_prefix(style, s)) {
        Some(seg) => if seg == seq!['.', '.'] {
            None
        } else {
            Some(seg)
        },
        None => None,
    }
}

/// `Path::extension` of a file name: the text after its last `.`, when that
/// dot is not the name's first character.
pub open spec fn name_extension(name: Seq<char>) -> Option<Seq<char>> {
    let d = last_index_of(name, '.');
    if d <= 0 {
        None
    } else {
        Some(name.subrange(d + 1, name.len() as int))
    }
}

/// What `filename_of` returns: the file name, or the whole path when there
/// is none.
pub open spec fn filename_spec(style: PathStyle, path: Seq<char>) -> Seq<char> {
    match file_name(style, path) {
        Some(n) => n,
        None => path,
    }
}

/// What `extension_of` returns: the ASCII-lower-cased extension, or empty.
pub open spec fn extension_spec(style: PathStyle, path: Seq<char>) -> Seq<char> {
    match file_name(style, path) {
        Some(n) => match name_extension(n) {
            Some(e) => ascii_lower(e),
            None => Seq::empty(),
        },
        None => Seq::empty(),
    }
}

/// `s` without the copies of `c` that end it.
pub open spec fn trim_end_char(s: Seq<char>, c: char) -> Seq<char>
    decreases s.len(),
{
    if s.len() > 0 && s.last() == c {
        trim_end_char(s.drop_last(), c)
    } else {
        s
    }
}

/// `s` with every `/` replaced by `\`.
pub open spec fn to_backslashes(s: Seq<char>) -> Seq<char> {
    s.map_values(|c: char| if c == '/' { '\\' } else { c })
}

/// The form in which folder paths are compared: `/` turned into the main
/// separator, trailing separators removed, and on Windows lower-cased.
pub open spec fn norm(style: PathStyle, s: Seq<char>) -> Seq<char> {
    if style == PathStyle::Windows {
        lowercase(trim_end_char(to_backslashes(s), '\\'))
    } else {
        trim_end_char(s, '/')
    }
}

/// `child` is `parent` itself or lies below it, once both are normalised.
pub open spec fn under(style: PathStyle, child: Seq<char>, parent: Seq<char>) -> bool {
    let c = norm(style, child);
    let p = norm(style, parent);
    c == p || has_prefix(c, p.push(main_sep(style)))
}

/// The position of the last `c` among the first `end` characters of `v`.
pub fn find_last(v: &Vec<char>, end: usize, c: char) -> (r: Option<usize>)
    requires
        end <= v.len(),
    ensures
        match r {
            Some(k) => k < end && k as int == last_index_of(v@.take(end as int), c),
            None => last_index_of(v@.take(end as int), c) == -1,
        },
{
    proof {
        lemma_last_index_of(v@.take(end as int), c);
    }
    let mut j = end;
    while j > 0
        invariant
            j <= end <= v.len(),
            last_index_of(v@.take(end as int), c) == last_index_of(v@.take(j as int), c),
        decreases j,
    {
        assert(v@.take(j as int).drop_last() =~= v@.take(j - 1));
        if v[j - 1] == c {
            return Some(j - 1);
        }
        j = j - 1;
    }
    None
}

/// The position of the last separator among the first `end` characters of
/// `v`.
pub fn find_last_sep(v: &Vec<char>, end: usize, style: PathStyle) -> (r: Option<usize>)
    requires
        end <= v.len(),
    ensures
        match r {
            Some(k) => k < end && k as int == last_sep_index(style, v@.take(end as int)),
            None => last_sep_index(style, v@.take(end as int)) == -1,
        },
{
    let mut j = end;
    while j > 0
        invariant
            j <= end <= v.len(),
            last_sep_index(style, v@.take(end as int)) == last_sep_index(style, v@.take(j as int)),
        decreases j,
    {
        assert(v@.take(j as int).drop_last() =~= v@.take(j - 1));
        let c = v[j - 1];
        if c == '/' || (style == PathStyle::Windows && c == '\\') {
            return Some(j - 1);
        }
        j = j - 1;
    }
    None
}

/// The bounds `[start, end)` of the last normal component of `v`.
fn last_component_bounds(v: &Vec<char>, style: PathStyle) -> (r: Option<(usize, usize)>)
    ensures
        match r {
            Some((a, b)) => a <= b <= v.len() && last_component(style, v@) == Some(
                v@.subrange(a as int, b as int),
            ),
            None => last_component(style, v@) is None,
        },
{
    let mut end = v.len();
    assert(v@.take(end as int) =~= v@);
    loop
        invariant
            end <= v.len(),
            last_component(style, v@) == last_component(style, v@.take(end as int)),
        decreases end,
    {
        let ghost s = v@.take(end as int);
        let k = match find_last_sep(v, end, style) {
            Some(p) => p + 1,
            None => 0,
        };
        proof {
            lemma_last_sep_index(style, s);
        }
        let is_dot = end > k && end - k == 1 && v[k] == '.';
        assert(s.subrange(k as int, end as int) =~= v@.subrange(k as int, end as int));
        if end == k || is_dot {
            assert(is_dot ==> s.subrange(k as int, end as int) =~= seq!['.']);
            if k == 0 {
                return None;
            }
            assert(s.subrange(0, k - 1) =~= v@.take(k - 1));
            end = k - 1;
        } else {
            assert(s.subrange(k as int, end as int) != seq!['.']) by {
                if s.subrange(k as int, end as int) =~= seq!['.'] {
                    assert(s.subrange(k as int, end as int)[0] == v@[k as int]);
                }
            }
            return Some((k, end));
        }
    }
}

/// `c` separates path components under `style`.
fn sep_char(c: char, style: PathStyle) -> (b: bool)
    ensures
        b == is_sep(style, c),
{
    c == '/' || (style == PathStyle::Windows && c == '\\')
}

/// The position of the first separator of `v` at or after `i`.
fn next_sep_of(v: &Vec<char>, i: usize, style: PathStyle) -> (r: usize)
    requires
        i <= v.len(),
    ensures
        r == next_sep(style, v@, i as int),
{
    let mut j = i;
    while j < v.len() && !sep_char(v[j], style)
        invariant
            i <= j <= v.len(),
            next_sep(style, v@, i as int) == next_sep(style, v@, j as int),
        decreases v.len() - j,
    {
        j = j + 1;
    }
    j
}

/// The length of the prefix of `v`.
pub(crate) fn prefix_len_of(v: &Vec<char>, style: PathStyle) -> (n: usize)
    ensures
        n == prefix_len(style, v@),
{
    if style != PathStyle::Windows {
        0
    } else if v.len() >= 2 && sep_char(v[0], style) && sep_char(v[1], style) {
        if v.len() >= 4 && v[2] == '?' && sep_char(v[3], style) {
            let a = next_sep_of(v, 4, style);
            proof {
                lemma_next_sep(style, v@, 4int);
            }
            let unc = a == 7 && v[4] == 'U' && v[5] == 'N' && v[6] == 'C';
            assert(unc <==> v@.subrange(4, a as int) == seq!['U', 'N', 'C']) by {
                if unc {
                    assert(v@.subrange(4, a as int) =~= seq!['U', 'N', 'C']);
                }
                if v@.subrange(4, a as int) =~= seq!['U', 'N', 'C'] {
                    assert(v@.subrange(4, a as int)[0] == v@[4]);
                    assert(v@.subrange(4, a as int)[1] == v@[5]);
                    assert(v@.subrange(4, a as int)[2] == v@[6]);
                }
            }
            if unc {
                let b = if a < v.len() {
                    proof {
                        lemma_next_sep(style, v@, a + 1);
                    }
                    next_sep_of(v, a + 1, style)
                } else {
                    a
                };
                if b < v.len() {
                    next_sep_of(v, b + 1, style)
                } else {
                    b
                }
            } else {
                a
            }
        } else if v.len() >= 4 && v[2] == '.' && sep_char(v[3], style) {
            next_sep_of(v, 4, style)
        } else {
            let a = next_sep_of(v, 2, style);
            if a == 2 || a >= v.len() {
                0
            } else {
                let b = next_sep_of(v, a + 1, style);
                if b == a + 1 {
                    0
                } else {
                    b
                }
            }
        }
    } else if v.len() >= 2 && v[1] == ':' && (('a' <= v[0] && v[0] <= 'z') || ('A' <= v[0]
        && v[0] <= 'Z')) {
        2
    } else {
        0
    }
}

/// `Path::file_name` as characters.
pub fn file_name_chars(v: &Vec<char>, style: PathStyle) -> (r: Option<Vec<char>>)
    ensures
        match r {
            Some(n) => file_name(style, v@) == Some(n@),
            None => file_name(style, v@) is None,
        },
{
    let d = prefix_len_of(v, style);
    proof {
        lemma_prefix_len(style, v@);
    }
    let body = slice_chars(v, d, v.len());
    match last_component_bounds(&body, style) {
        None => None,
        Some((a, b)) => {
            if b - a == 2 && body[a] == '.' && body[a + 1] == '.' {
                assert(body@.subrange(a as int, b as int) =~= seq!['.', '.']);
                None
            } else {
                let n = slice_chars(&body, a, b);
                assert(n@ != seq!['.', '.']) by {
                    if n@ =~= seq!['.', '.'] {
                        assert(body@[a as int] == n@[0]);
                        assert(body@[a + 1] == n@[1]);
                    }
                }
                Some(n)
            }
        },
    }
}

/// Reads `std::path::MAIN_SEPARATOR`, the host's preferred separator.
/// Nothing is claimed of the result: it depends on the machine the program
/// was built for.
#[verifier::external_body]
fn main_separator() -> (c: char) {
    std::path::MAIN_SEPARATOR
}

/// The path rules of the host: Windows where the main separator is `\`,
/// Unix otherwise.
pub fn host_style() -> (s: PathStyle) {
    if main_separator() == '\\' {
        PathStyle::Windows
    } else {
        PathStyle::Unix
    }
}

/// `filename_of` under the rules of `style`.
pub fn filename_on(style: PathStyle, path: &str) -> (r: String)
    ensures
        r@ == filename_spec(style, path@),
{
    let v = chars_of(path);
    match file_name_chars(&v, style) {
        Some(n) => string_of(n.as_slice()),
        None => string_of(v.as_slice()),
    }
}

/// The final component of `path`, or `path` itself when it has none
/// (it is empty, a root, or ends in `..`), under the host's path rules.
pub fn filename_of(path: &str) -> (r: String)
    ensures
        r@ == filename_spec(PathStyle::Unix, path@) || r@ == filename_spec(
            PathStyle::Windows,
            path@,
        ),
{
    filename_on(host_style(), path)
}

/// `extension_of` under the rules of `style`.
pub fn extension_on(style: PathStyle, path: &str) -> (r: String)
    ensures
        r@ == extension_spec(style, path@),
{
    let v = chars_of(path);
    let e = extension_chars(&v, style);
    string_of(e.as_slice())
}

/// The lower-cased (ASCII) extension of `path`'s file name, or an empty
/// string when it has none, under the host's path rules.
pub fn extension_of(path: &str) -> (r: String)
    ensures
        r@ == extension_spec(PathStyle::Unix, path@) || r@ == extension_spec(
            PathStyle::Windows,
            path@,
        ),
{
    extension_on(host_style(), path)
}

/// `extension_of` on a character vector.
pub fn extension_chars(v: &Vec<char>, style: PathStyle) -> (r: Vec<char>)
    ensures
        r@ == extension_spec(style, v@),
{
    match file_name_chars(v, style) {
        None => Vec::new(),
        Some(n) => {
            assert(n@.take(n.len() as int) =~= n@);
            match find_last(&n, n.len(), '.') {
                Some(d) => {
                    if d == 0 {
                        Vec::new()
                    } else {
                        proof {
                            lemma_last_index_of(n@, '.');
                        }
                        let e = slice_chars(&n, d + 1, n.len());
                        lower_ascii(&e)
                    }
                },
                None => Vec::new(),
            }
        },
    }
}

/// Length of `v` once the copies of `c` that end it are removed.
fn trimmed_len(v: &Vec<char>, c: char) -> (n: usize)
    ensures
        n <= v.len(),
        trim_end_char(v@, c) == v@.take(n as int),
{
    let mut n = v.len();
    assert(v@.take(n as int) =~= v@);
    while n > 0 && v[n - 1] == c
        invariant
            n <= v.len(),
            trim_end_char(v@, c) == trim_end_char(v@.take(n as int), c),
        decreases n,
    {
        assert(v@.take(n as int).drop_last() =~= v@.take(n - 1));
        n = n - 1;
    }
    n
}

/// `v` in the form used to compare folder paths.
pub fn norm_chars(v: &Vec<char>, style: PathStyle) -> (r: Vec<char>)
    ensures
        r@ == norm(style, v@),
{
    if style == PathStyle::Windows {
        let mut w: Vec<char> = Vec::new();
        let mut i: usize = 0;
        while i < v.len()
            invariant
                i <= v.len(),
                w@ == to_backslashes(v@.take(i as int)),
            decreases v.len() - i,
        {
            let c = if v[i] == '/' {
                '\\'
            } else {
                v[i]
            };
            w.push(c);
            i = i + 1;
            assert(to_backslashes(v@.take(i as int)) =~= to_backslashes(v@.take(i - 1)).push(c));
        }
        assert(v@.take(v.len() as int) =~= v@);
        let n = trimmed_len(&w, '\\');
        let t = slice_chars(&w, 0, n);
        assert(t@ =~= w@.take(n as int));
        let ts = string_of(t.as_slice());
        let l = to_lowercase(ts.as_str());
        chars_of(l.as_str())
    } else {
        let n = trimmed_len(v, '/');
        let t = slice_chars(v, 0, n);
        assert(t@ =~= v@.take(n as int));
        t
    }
}

/// `path_under` under the rules of `style`.
pub fn path_under_on(style: PathStyle, child: &str, parent: &str) -> (b: bool)
    ensures
        b == under(style, child@, parent@),
{
    let c = chars_of(child);
    let p = chars_of(parent);
    under_chars(&c, &p, style)
}

/// True when `child` is `parent` or lies inside it, under the host's path
/// rules. Trailing separators are ignored, `/` and `\` are the same on
/// Windows, case is ignored there, and `/projects` does not contain
/// `/projectsBackup`.
pub fn path_under(child: &str, parent: &str) -> (b: bool)
    ensures
        b == under(PathStyle::Unix, child@, parent@) || b == under(
            PathStyle::Windows,
            child@,
            parent@,
        ),
{
    path_under_on(host_style(), child, parent)
}

/// `path_under` on character vectors.
pub fn under_chars(c: &Vec<char>, p: &Vec<char>, style: PathStyle) -> (b: bool)
    ensures
        b == under(style, c@, p@),
{
    let cn = norm_chars(c, style);
    let mut pn = norm_chars(p, style);
    if crate::scanner::chars_eq(&cn, &pn) {
        return true;
    }
    let sep = if style == PathStyle::Windows {
        '\\'
    } else {
        '/'
    };
    pn.push(sep);
    crate::query::starts_with(&cn, &pn)
}

} // verus!
