//! The query language: `name:`, `path:` and `ext:` operators, quoted phrases
//! and plain terms, and its translation into the index's query syntax.
use vstd::prelude::*;
use crate::strings::{
    all_ws, append_chars, chars_of, has_prefix, is_whitespace, is_ws, join, slice_chars, string_of,
    to_lowercase, lowercase, words,
};

verus! {

/// A raw query taken apart.
///   name:foo  → filename term
///   ext:pdf   → extension filter
///   path:proj → path term
///   "quoted phrase"
///   plain terms → filename
pub struct ParsedQuery {
    pub filename_terms: Vec<String>,
    pub path_terms: Vec<String>,
    pub ext_filters: Vec<String>,
    pub general: Vec<String>,
    pub phrases: Vec<String>,
}

/// The characters of each string.
pub open spec fn strs(v: Seq<String>) -> Seq<Seq<char>> {
    v.map_values(|s: String| s@)
}

/// A parsed query as sequences of character sequences.
pub struct QueryView {
    pub filename_terms: Seq<Seq<char>>,
    pub path_terms: Seq<Seq<char>>,
    pub ext_filters: Seq<Seq<char>>,
    pub general: Seq<Seq<char>>,
    pub phrases: Seq<Seq<char>>,
}

impl View for ParsedQuery {
    type V = QueryView;

    open spec fn view(&self) -> QueryView {
        QueryView {
            filename_terms: strs(self.filename_terms@),
            path_terms: strs(self.path_terms@),
            ext_filters: strs(self.ext_filters@),
            general: strs(self.general@),
            phrases: strs(self.phrases@),
        }
    }
}

/// Position of the first `c` in `s`, or -1 when there is none.
pub open spec fn first_index_of(s: Seq<char>, c: char) -> int
    decreases s.len(),
{
    if s.len() == 0 {
        -1
    } else {
        let f = first_index_of(s.drop_last(), c);
        if f >= 0 {
            f
        } else if s.last() == c {
            s.len() - 1
        } else {
            -1
        }
    }
}

pub proof fn lemma_first_index_of(s: Seq<char>, c: char)
    ensures
        -1 <= first_index_of(s, c) < s.len(),
        first_index_of(s, c) >= 0 ==> s[first_index_of(s, c)] == c,
        forall|i: int|
            0 <= i < s.len() && (first_index_of(s, c) < 0 || i < first_index_of(s, c)) ==> s[i]
                != c,
    decreases s.len(),
{
    if s.len() > 0 {
        lemma_first_index_of(s.drop_last(), c);
        assert forall|i: int|
            0 <= i < s.len() && (first_index_of(s, c) < 0 || i < first_index_of(s, c)) implies s[i]
            != c by {
            if i < s.len() - 1 {
                assert(s.drop_last()[i] == s[i]);
            }
        }
    }
}

/// `s` with every `c` removed.
pub open spec fn remove_all(s: Seq<char>, c: char) -> Seq<char>
    decreases s.len(),
{
    if s.len() == 0 {
        s
    } else if s.last() == c {
        remove_all(s.drop_last(), c)
    } else {
        remove_all(s.drop_last(), c).push(s.last())
    }
}

/// The quoted phrases of `s`, taken out from the left one pair of quotes at
/// a time, and what remains once they are removed. A phrase of whitespace
/// only is dropped; when a quote has no partner, every quote left is removed.
pub open spec fn split_quotes(s: Seq<char>) -> (Seq<Seq<char>>, Seq<char>)
    decreases s.len(),
{
    let i = first_index_of(s, '"');
    if i < 0 {
        (Seq::empty(), s)
    } else {
        proof {
            lemma_first_index_of(s, '"');
        }
        let tail = s.subrange(i + 1, s.len() as int);
        let j = first_index_of(tail, '"');
        if j < 0 {
            (Seq::empty(), remove_all(s, '"'))
        } else {
            proof {
                lemma_first_index_of(tail, '"');
            }
            let phrase = tail.subrange(0, j);
            let rest = s.subrange(0, i) + tail.subrange(j + 1, tail.len() as int);
            let (ps, r) = split_quotes(rest);
            (if all_ws(phrase) {
                ps
            } else {
                seq![phrase] + ps
            }, r)
        }
    }
}

/// `s` without its leading dots.
pub open spec fn trim_leading_dots(s: Seq<char>) -> Seq<char>
    decreases s.len(),
{
    if s.len() > 0 && s[0] == '.' {
        trim_leading_dots(s.drop_first())
    } else {
        s
    }
}

pub open spec fn empty_query() -> QueryView {
    QueryView {
        filename_terms: Seq::empty(),
        path_terms: Seq::empty(),
        ext_filters: Seq::empty(),
        general: Seq::empty(),
        phrases: Seq::empty(),
    }
}

/// How one whitespace-separated token enters the query.
pub open spec fn add_token(q: QueryView, t: Seq<char>) -> QueryView {
    if has_prefix(t, "name:"@) {
        let v = t.subrange("name:"@.len() as int, t.len() as int);
        if v.len() > 0 {
            QueryView { filename_terms: q.filename_terms.push(lowercase(v)), ..q }
        } else {
            q
        }
    } else if has_prefix(t, "ext:"@) {
        let v = t.subrange("ext:"@.len() as int, t.len() as int);
        if v.len() > 0 {
            QueryView { ext_filters: q.ext_filters.push(trim_leading_dots(lowercase(v))), ..q }
        } else {
            q
        }
    } else if has_prefix(t, "path:"@) {
        let v = t.subrange("path:"@.len() as int, t.len() as int);
        if v.len() > 0 {
            QueryView { path_terms: q.path_terms.push(lowercase(v)), ..q }
        } else {
            q
        }
    } else {
        QueryView { general: q.general.push(t), ..q }
    }
}

/// The tokens, in order, sorted into the query's lists.
pub open spec fn classify(toks: Seq<Seq<char>>) -> QueryView
    decreases toks.len(),
{
    if toks.len() == 0 {
        empty_query()
    } else {
        add_token(classify(toks.drop_last()), toks.last())
    }
}

/// What `parse` returns for `raw`.
pub open spec fn parse_spec(raw: Seq<char>) -> QueryView {
    let (ps, rest) = split_quotes(raw);
    QueryView { phrases: ps, ..classify(words(rest)) }
}

/// A character that the index's query syntax treats specially.
pub open spec fn is_special(c: char) -> bool {
    ||| is_ws(c)
    ||| c == '"'
    ||| c == '*'
    ||| c == '?'
    ||| c == '+'
    ||| c == '-'
    ||| c == '~'
    ||| c == '^'
    ||| c == '&'
    ||| c == '|'
    ||| c == '('
    ||| c == ')'
    ||| c == '!'
    ||| c == '{'
    ||| c == '}'
    ||| c == '['
    ||| c == ']'
    ||| c == ':'
    ||| c == '\\'
}

/// `s` with a backslash before each special character.
pub open spec fn escaped(s: Seq<char>) -> Seq<char>
    decreases s.len(),
{
    if s.len() == 0 {
        s
    } else if is_special(s.last()) {
        escaped(s.drop_last()).push('\\').push(s.last())
    } else {
        escaped(s.drop_last()).push(s.last())
    }
}

/// Each term behind `prefix`, escaped.
pub open spec fn clauses_of(prefix: Seq<char>, terms: Seq<Seq<char>>) -> Seq<Seq<char>> {
    terms.map_values(|t: Seq<char>| prefix + escaped(t))
}

/// Each phrase escaped, quoted and behind `filename:`.
pub open spec fn phrase_clauses(terms: Seq<Seq<char>>) -> Seq<Seq<char>> {
    terms.map_values(|t: Seq<char>| "filename:\""@ + escaped(t) + "\""@)
}

/// What `to_tantivy_query` returns for a parsed query.
pub open spec fn tantivy_query_spec(q: QueryView) -> Seq<char> {
    join(
        clauses_of("filename:"@, q.general) + phrase_clauses(q.phrases) + clauses_of(
            "filename:"@,
            q.filename_terms,
        ) + clauses_of("path:"@, q.path_terms) + clauses_of("extension:"@, q.ext_filters),
        " AND "@,
    )
}

/// `p` is a prefix of `t`.
pub fn starts_with(t: &Vec<char>, p: &Vec<char>) -> (b: bool)
    ensures
        b == has_prefix(t@, p@),
{
    if p.len() > t.len() {
        return false;
    }
    let mut i: usize = 0;
    while i < p.len()
        invariant
            i <= p.len() <= t.len(),
            forall|j: int| 0 <= j < i ==> t@[j] == p@[j],
        decreases p.len() - i,
    {
        if t[i] != p[i] {
            assert(t@.subrange(0, p.len() as int)[i as int] != p@[i as int]);
            return false;
        }
        i = i + 1;
    }
    assert(t@.subrange(0, p.len() as int) =~= p@);
    true
}

/// Position of the first `c` at or after `from`.
fn find_from(v: &Vec<char>, from: usize, c: char) -> (r: Option<usize>)
    requires
        from <= v.len(),
    ensures
        match r {
            Some(k) => from <= k < v.len() && k - from == first_index_of(
                v@.subrange(from as int, v.len() as int),
                c,
            ),
            None => first_index_of(v@.subrange(from as int, v.len() as int), c) == -1,
        },
{
    let ghost s = v@.subrange(from as int, v.len() as int);
    proof {
        lemma_first_index_of(s, c);
    }
    let mut k = from;
    while k < v.len()
        invariant
            from <= k <= v.len(),
            s == v@.subrange(from as int, v.len() as int),
            forall|i: int| from <= i < k ==> v@[i] != c,
            -1 <= first_index_of(s, c) < s.len(),
            first_index_of(s, c) >= 0 ==> s[first_index_of(s, c)] == c,
            forall|i: int|
                0 <= i < s.len() && (first_index_of(s, c) < 0 || i < first_index_of(s, c)) ==> s[i]
                    != c,
        decreases v.len() - k,
    {
        if v[k] == c {
            assert(s[k - from] == c);
            proof {
                if first_index_of(s, c) >= 0 {
                    assert(s[first_index_of(s, c)] == v@[from + first_index_of(s, c)]);
                }
            }
            return Some(k);
        }
        k = k + 1;
    }
    proof {
        if first_index_of(s, c) >= 0 {
            assert(s[first_index_of(s, c)] == v@[from + first_index_of(s, c)]);
        }
    }
    None
}

/// `v` with every `c` removed.
fn remove_all_chars(v: &Vec<char>, c: char) -> (r: Vec<char>)
    ensures
        r@ == remove_all(v@, c),
{
    let mut r: Vec<char> = Vec::new();
    let mut i: usize = 0;
    while i < v.len()
        invariant
            i <= v.len(),
            r@ == remove_all(v@.take(i as int), c),
        decreases v.len() - i,
    {
        assert(v@.take(i + 1).drop_last() =~= v@.take(i as int));
        if v[i] != c {
            r.push(v[i]);
        }
        i = i + 1;
    }
    assert(v@.take(v.len() as int) =~= v@);
    r
}

/// Every character of `v` is whitespace.
pub fn all_whitespace(v: &Vec<char>) -> (b: bool)
    ensures
        b == all_ws(v@),
{
    let mut i: usize = 0;
    while i < v.len()
        invariant
            i <= v.len(),
            forall|j: int| 0 <= j < i ==> is_ws(v@[j]),
        decreases v.len() - i,
    {
        if !is_whitespace(v[i]) {
            return false;
        }
        i = i + 1;
    }
    true
}

/// Takes the quoted phrases out of `raw`.
fn extract_phrases(raw: &Vec<char>) -> (r: (Vec<String>, Vec<char>))
    ensures
        (strs(r.0@), r.1@) == split_quotes(raw@),
{
    let mut phrases: Vec<String> = Vec::new();
    let mut rest: Vec<char> = raw.clone();
    assert(rest@ == raw@);
    loop
        invariant
            split_quotes(raw@) == (strs(phrases@) + split_quotes(rest@).0, split_quotes(rest@).1),
        decreases rest.len(),
    {
        let ghost s = rest@;
        proof {
            lemma_first_index_of(s, '"');
        }
        assert(s.subrange(0, s.len() as int) =~= s);
        match find_from(&rest, 0, '"') {
            None => {
                assert(split_quotes(s) == (Seq::<Seq<char>>::empty(), s));
                assert(strs(phrases@) + Seq::<Seq<char>>::empty() =~= strs(phrases@));
                return (phrases, rest);
            },
            Some(start) => {
                let ghost tail = s.subrange(start + 1, s.len() as int);
                match find_from(&rest, start + 1, '"') {
                    None => {
                        let r = remove_all_chars(&rest, '"');
                        assert(strs(phrases@) + Seq::<Seq<char>>::empty() =~= strs(phrases@));
                        return (phrases, r);
                    },
                    Some(end) => {
                        proof {
                            lemma_first_index_of(tail, '"');
                        }
                        let phrase = slice_chars(&rest, start + 1, end);
                        assert(phrase@ =~= tail.subrange(0, end - (start + 1)));
                        let mut next = slice_chars(&rest, 0, start);
                        let after = slice_chars(&rest, end + 1, rest.len());
                        append_chars(&mut next, &after);
                        assert(next@ =~= s.subrange(0, start as int) + tail.subrange(
                            end - (start + 1) + 1,
                            tail.len() as int,
                        ));
                        let ghost old_phrases = phrases@;
                        if !all_whitespace(&phrase) {
                            let ps = string_of(phrase.as_slice());
                            phrases.push(ps);
                            assert(strs(phrases@) =~= strs(old_phrases).push(phrase@));
                            assert(strs(old_phrases) + (seq![phrase@] + split_quotes(next@).0)
                                =~= strs(phrases@) + split_quotes(next@).0);
                        }
                        rest = next;
                    },
                }
            },
        }
    }
}

/// The whitespace-separated tokens of `s`.
pub fn split_words(s: &Vec<char>) -> (r: Vec<Vec<char>>)
    ensures
        r@.map_values(|w: Vec<char>| w@) == words(s@),
        forall|k: int| 0 <= k < r.len() ==> r@[k].len() > 0,
{
    let mut out: Vec<Vec<char>> = Vec::new();
    let mut cur: Vec<char> = Vec::new();
    let mut i: usize = 0;
    while i < s.len()
        invariant
            i <= s.len(),
            words(s@.take(i as int)) == if cur.len() == 0 {
                out@.map_values(|w: Vec<char>| w@)
            } else {
                out@.map_values(|w: Vec<char>| w@).push(cur@)
            },
            cur.len() > 0 <==> (i > 0 && !is_ws(s@[i - 1])),
            forall|k: int| 0 <= k < out.len() ==> out@[k].len() > 0,
        decreases s.len() - i,
    {
        let c = s[i];
        let ghost w = words(s@.take(i as int));
        assert(s@.take(i + 1).drop_last() =~= s@.take(i as int));
        assert(s@.take(i + 1).last() == c);
        if is_whitespace(c) {
            assert(words(s@.take(i + 1)) == w);
            if cur.len() > 0 {
                let ghost old_out = out@;
                out.push(cur);
                assert(out@.map_values(|w: Vec<char>| w@) =~= old_out.map_values(
                    |w: Vec<char>| w@,
                ).push(cur@));
                cur = Vec::new();
            }
            assert(words(s@.take(i + 1)) == out@.map_values(|w: Vec<char>| w@));
        } else {
            let ghost om = out@.map_values(|w: Vec<char>| w@);
            let ghost old_cur = cur@;
            if cur.len() > 0 {
                assert(s@.take(i + 1)[i - 1] == s@[i - 1]);
                assert(w == om.push(old_cur));
                assert(w.drop_last() =~= om);
                assert(words(s@.take(i + 1)) == w.drop_last().push(w.last().push(c)));
            } else {
                assert(w == om);
                assert(words(s@.take(i + 1)) == w.push(seq![c]));
            }
            cur.push(c);
            assert(cur@ =~= old_cur.push(c));
            assert(old_cur.len() == 0 ==> old_cur.push(c) =~= seq![c]);
            assert(words(s@.take(i + 1)) == out@.map_values(|w: Vec<char>| w@).push(cur@));
        }
        i = i + 1;
    }
    assert(s@.take(s.len() as int) =~= s@);
    if cur.len() > 0 {
        let ghost old_out = out@;
        out.push(cur);
        assert(out@.map_values(|w: Vec<char>| w@) =~= old_out.map_values(|w: Vec<char>| w@).push(
            cur@,
        ));
    }
    out
}

/// `v` without its leading dots.
fn trim_dots(v: &Vec<char>) -> (r: Vec<char>)
    ensures
        r@ == trim_leading_dots(v@),
{
    let mut i: usize = 0;
    assert(v@.subrange(0, v.len() as int) =~= v@);
    while i < v.len() && v[i] == '.'
        invariant
            i <= v.len(),
            trim_leading_dots(v@) == trim_leading_dots(v@.subrange(i as int, v.len() as int)),
        decreases v.len() - i,
    {
        assert(v@.subrange(i as int, v.len() as int).drop_first() =~= v@.subrange(
            i + 1,
            v.len() as int,
        ));
        i = i + 1;
    }
    slice_chars(v, i, v.len())
}

/// `str::to_lowercase` of a character vector.
fn lower(v: &Vec<char>) -> (r: String)
    ensures
        r@ == lowercase(v@),
{
    let s = string_of(v.as_slice());
    to_lowercase(s.as_str())
}

/// Adds one token to the query under construction.
fn push_token(q: &mut ParsedQuery, t: &Vec<char>)
    ensures
        final(q)@ == add_token(old(q)@, t@),
{
    let name = chars_of("name:");
    let ext = chars_of("ext:");
    let path = chars_of("path:");
    if starts_with(t, &name) {
        if name.len() < t.len() {
            let v = slice_chars(t, name.len(), t.len());
            let l = lower(&v);
            let ghost old_terms = q.filename_terms@;
            q.filename_terms.push(l);
            assert(strs(q.filename_terms@) =~= strs(old_terms).push(lowercase(v@)));
        }
    } else if starts_with(t, &ext) {
        if ext.len() < t.len() {
            let v = slice_chars(t, ext.len(), t.len());
            let l = lower(&v);
            let lc = chars_of(l.as_str());
            let d = trim_dots(&lc);
            let ghost old_terms = q.ext_filters@;
            q.ext_filters.push(string_of(d.as_slice()));
            assert(strs(q.ext_filters@) =~= strs(old_terms).push(
                trim_leading_dots(lowercase(v@)),
            ));
        }
    } else if starts_with(t, &path) {
        if path.len() < t.len() {
            let v = slice_chars(t, path.len(), t.len());
            let l = lower(&v);
            let ghost old_terms = q.path_terms@;
            q.path_terms.push(l);
            assert(strs(q.path_terms@) =~= strs(old_terms).push(lowercase(v@)));
        }
    } else {
        let ghost old_terms = q.general@;
        q.general.push(string_of(t.as_slice()));
        assert(strs(q.general@) =~= strs(old_terms).push(t@));
    }
}

/// Parses a raw query string into structured terms.
pub fn parse(raw: &str) -> (q: ParsedQuery)
    ensures
        q@ == parse_spec(raw@),
{
    let chars = chars_of(raw);
    let (phrases, rest) = extract_phrases(&chars);
    let toks = split_words(&rest);
    let mut q = ParsedQuery {
        filename_terms: Vec::new(),
        path_terms: Vec::new(),
        ext_filters: Vec::new(),
        general: Vec::new(),
        phrases: Vec::new(),
    };
    let ghost tv = toks@.map_values(|w: Vec<char>| w@);
    assert(q@ == empty_query()) by {
        assert(strs(q.general@) =~= Seq::<Seq<char>>::empty());
        assert(strs(q.phrases@) =~= Seq::<Seq<char>>::empty());
        assert(strs(q.path_terms@) =~= Seq::<Seq<char>>::empty());
        assert(strs(q.ext_filters@) =~= Seq::<Seq<char>>::empty());
        assert(strs(q.filename_terms@) =~= Seq::<Seq<char>>::empty());
    }
    let mut i: usize = 0;
    while i < toks.len()
        invariant
            i <= toks.len(),
            tv == toks@.map_values(|w: Vec<char>| w@),
            q@ == classify(tv.take(i as int)),
        decreases toks.len() - i,
    {
        assert(tv.take(i + 1).drop_last() =~= tv.take(i as int));
        assert(tv.take(i + 1).last() == toks@[i as int]@);
        push_token(&mut q, &toks[i]);
        i = i + 1;
    }
    assert(tv.take(toks.len() as int) =~= tv);
    q.phrases = phrases;
    q
}

/// Escapes the characters that the index's query syntax treats specially.
pub fn escape_term(s: &str) -> (r: String)
    ensures
        r@ == escaped(s@),
{
    let v = chars_of(s);
    let e = escape_chars(&v);
    string_of(e.as_slice())
}

/// Whether `c` needs a backslash in front of it.
fn special(c: char) -> (b: bool)
    ensures
        b == is_special(c),
{
    is_whitespace(c) || c == '"' || c == '*' || c == '?' || c == '+' || c == '-' || c == '~' || c
        == '^' || c == '&' || c == '|' || c == '(' || c == ')' || c == '!' || c == '{' || c == '}'
        || c == '[' || c == ']' || c == ':' || c == '\\'
}

/// `escape_term` on a character vector.
fn escape_chars(v: &Vec<char>) -> (r: Vec<char>)
    ensures
        r@ == escaped(v@),
{
    let mut r: Vec<char> = Vec::new();
    let mut i: usize = 0;
    while i < v.len()
        invariant
            i <= v.len(),
            r@ == escaped(v@.take(i as int)),
        decreases v.len() - i,
    {
        assert(v@.take(i + 1).drop_last() =~= v@.take(i as int));
        let c = v[i];
        if special(c) {
            r.push('\\');
        }
        r.push(c);
        i = i + 1;
    }
    assert(v@.take(v.len() as int) =~= v@);
    r
}

/// The characters of `escape_term(s)`.
pub fn escape(s: &str) -> (r: Vec<char>)
    ensures
        r@ == escaped(s@),
{
    let v = chars_of(s);
    escape_chars(&v)
}

/// Appends `prefix + escape(t)` for each term `t`.
fn push_clauses(out: &mut Vec<Vec<char>>, prefix: &str, terms: &Vec<String>)
    ensures
        final(out)@.map_values(|w: Vec<char>| w@) == old(out)@.map_values(|w: Vec<char>| w@)
            + clauses_of(prefix@, strs(terms@)),
{
    let ghost start = out@.map_values(|w: Vec<char>| w@);
    let mut i: usize = 0;
    while i < terms.len()
        invariant
            i <= terms.len(),
            out@.map_values(|w: Vec<char>| w@) == start + clauses_of(
                prefix@,
                strs(terms@.take(i as int)),
            ),
        decreases terms.len() - i,
    {
        let mut c = chars_of(prefix);
        let e = escape(terms[i].as_str());
        append_chars(&mut c, &e);
        let ghost before = out@;
        out.push(c);
        i = i + 1;
        assert(strs(terms@.take(i as int)) =~= strs(terms@.take(i - 1)).push(terms@[i - 1]@));
        assert(out@.map_values(|w: Vec<char>| w@) =~= before.map_values(|w: Vec<char>| w@).push(
            c@,
        ));
        assert(clauses_of(prefix@, strs(terms@.take(i as int))) =~= clauses_of(
            prefix@,
            strs(terms@.take(i - 1)),
        ).push(c@));
    }
    assert(terms@.take(terms.len() as int) =~= terms@);
}

/// Appends `filename:"escape(t)"` for each phrase `t`.
fn push_phrase_clauses(out: &mut Vec<Vec<char>>, terms: &Vec<String>)
    ensures
        final(out)@.map_values(|w: Vec<char>| w@) == old(out)@.map_values(|w: Vec<char>| w@)
            + phrase_clauses(strs(terms@)),
{
    let ghost start = out@.map_values(|w: Vec<char>| w@);
    let mut i: usize = 0;
    while i < terms.len()
        invariant
            i <= terms.len(),
            out@.map_values(|w: Vec<char>| w@) == start + phrase_clauses(
                strs(terms@.take(i as int)),
            ),
        decreases terms.len() - i,
    {
        let mut c = chars_of("filename:\"");
        let e = escape(terms[i].as_str());
        append_chars(&mut c, &e);
        let q = chars_of("\"");
        append_chars(&mut c, &q);
        let ghost before = out@;
        out.push(c);
        i = i + 1;
        assert(strs(terms@.take(i as int)) =~= strs(terms@.take(i - 1)).push(terms@[i - 1]@));
        assert(out@.map_values(|w: Vec<char>| w@) =~= before.map_values(|w: Vec<char>| w@).push(
            c@,
        ));
        assert(phrase_clauses(strs(terms@.take(i as int))) =~= phrase_clauses(
            strs(terms@.take(i - 1)),
        ).push(c@));
    }
    assert(terms@.take(terms.len() as int) =~= terms@);
}

/// `parts` joined by `sep`.
pub fn join_chars(parts: &Vec<Vec<char>>, sep: &Vec<char>) -> (r: Vec<char>)
    ensures
        r@ == join(parts@.map_values(|w: Vec<char>| w@), sep@),
{
    let ghost pv = parts@.map_values(|w: Vec<char>| w@);
    let mut r: Vec<char> = Vec::new();
    let mut i: usize = 0;
    while i < parts.len()
        invariant
            i <= parts.len(),
            pv == parts@.map_values(|w: Vec<char>| w@),
            r@ == join(pv.take(i as int), sep@),
        decreases parts.len() - i,
    {
        assert(pv.take(i + 1).drop_last() =~= pv.take(i as int));
        assert(pv.take(i + 1).last() == parts@[i as int]@);
        if i > 0 {
            append_chars(&mut r, sep);
        } else {
            assert(r@ =~= Seq::<char>::empty());
        }
        append_chars(&mut r, &parts[i]);
        i = i + 1;
    }
    assert(pv.take(parts.len() as int) =~= pv);
    r
}

/// Builds the index query for a parsed query: every clause searches the file
/// name, except `path:` and `ext:` which filter on the path and the
/// extension; the clauses are joined with `AND`.
pub fn to_tantivy_query(q: &ParsedQuery) -> (r: String)
    ensures
        r@ == tantivy_query_spec(q@),
{
    let mut clauses: Vec<Vec<char>> = Vec::new();
    assert(clauses@.map_values(|w: Vec<char>| w@) =~= Seq::<Seq<char>>::empty());
    push_clauses(&mut clauses, "filename:", &q.general);
    push_phrase_clauses(&mut clauses, &q.phrases);
    push_clauses(&mut clauses, "filename:", &q.filename_terms);
    push_clauses(&mut clauses, "path:", &q.path_terms);
    push_clauses(&mut clauses, "extension:", &q.ext_filters);
    let sep = chars_of(" AND ");
    let r = join_chars(&clauses, &sep);
    string_of(r.as_slice())
}

} // verus!
