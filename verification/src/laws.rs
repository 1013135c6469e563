//! Properties of the library that hold for all inputs.
use vstd::prelude::*;
use crate::indexing::{dedup, not_in, without};
use crate::paths::{
    extension_spec, file_name, filename_spec, last_index_of, last_component, lemma_last_component,
    lemma_last_index_of, lemma_last_sep_index, last_sep_index, name_extension,
    after_prefix, is_sep, lemma_prefix_len, prefix_len, main_sep, norm, to_backslashes, trim_end_char,
    under, PathStyle,
};
use crate::query::{
    add_token, classify, clauses_of, escaped, first_index_of, is_special, lemma_first_index_of,
    parse_spec, phrase_clauses, remove_all, split_quotes, tantivy_query_spec, trim_leading_dots,
    QueryView,
};
use crate::records::{owner_of, skips, FileMeta, FolderRow};
use crate::documents::{kind_for, slide_number_spec, ExtractorKind};
use crate::xml_text::{all_digits, digits_value, parse_uint};
use crate::search::{hits_spec, in_scope, text_or_empty, StoredDoc};
use crate::strings::{
    all_ws, ascii_lower, ascii_lower_char, has_prefix, has_suffix, is_ws, join, lowercase, words,
};
use crate::scanner::{
    body_components, components, default_excludes, excluded, prefix_part, lemma_pieces_nonempty,
    normal_pieces, pieces,
};

verus! {

/// Escaping loses nothing: two terms with the same escaped form are the
/// same term.
pub proof fn law_escape_injective(a: Seq<char>, b: Seq<char>)
    requires
        escaped(a) == escaped(b),
    ensures
        a == b,
    decreases a.len() + b.len(),
{
    if a.len() == 0 || b.len() == 0 {
        if a.len() > 0 {
            assert(escaped(a).len() > 0) by {
                lemma_escaped_len(a);
            }
        }
        if b.len() > 0 {
            assert(escaped(b).len() > 0) by {
                lemma_escaped_len(b);
            }
        }
        assert(a =~= b);
    } else {
        let ea = escaped(a);
        assert(ea.last() == a.last());
        assert(escaped(b).last() == b.last());
        assert(a.last() == b.last());
        if is_special(a.last()) {
            assert(escaped(a.drop_last()) =~= ea.drop_last().drop_last());
            assert(escaped(b.drop_last()) =~= escaped(b).drop_last().drop_last());
        } else {
            assert(escaped(a.drop_last()) =~= ea.drop_last());
            assert(escaped(b.drop_last()) =~= escaped(b).drop_last());
        }
        law_escape_injective(a.drop_last(), b.drop_last());
        assert(a =~= a.drop_last().push(a.last()));
        assert(b =~= b.drop_last().push(b.last()));
    }
}

pub proof fn lemma_escaped_len(s: Seq<char>)
    ensures
        escaped(s).len() >= s.len(),
    decreases s.len(),
{
    if s.len() > 0 {
        lemma_escaped_len(s.drop_last());
    }
}

/// Every folder contains itself.
pub proof fn law_under_reflexive(style: PathStyle, p: Seq<char>)
    ensures
        under(style, p, p),
{
}

/// Normalising ignores one more separator at the end.
pub proof fn lemma_norm_push_sep(style: PathStyle, p: Seq<char>, sep: char)
    requires
        is_sep(style, sep),
    ensures
        norm(style, p.push(sep)) == norm(style, p),
{
    if style == PathStyle::Windows {
        let q = to_backslashes(p.push(sep));
        assert(q =~= to_backslashes(p).push('\\'));
        assert(q.drop_last() =~= to_backslashes(p));
        assert(trim_end_char(q, '\\') == trim_end_char(to_backslashes(p), '\\'));
    } else {
        assert(p.push(sep).drop_last() =~= p);
    }
}

/// Trailing separators on the folder make no difference.
pub proof fn law_under_ignores_trailing_separator(
    style: PathStyle,
    c: Seq<char>,
    p: Seq<char>,
    sep: char,
)
    requires
        is_sep(style, sep),
    ensures
        under(style, c, p.push(sep)) == under(style, c, p),
{
    lemma_norm_push_sep(style, p, sep);
}

/// Containment is transitive: a path inside a folder that lies inside
/// another folder lies inside that one too.
pub proof fn law_under_transitive(style: PathStyle, a: Seq<char>, b: Seq<char>, c: Seq<char>)
    requires
        under(style, a, b),
        under(style, b, c),
    ensures
        under(style, a, c),
{
    let ta = norm(style, a);
    let tb = norm(style, b);
    let tc = norm(style, c);
    if ta == tb {
    } else if tb == tc {
    } else {
        // ta starts with tb and a separator, and tb with tc and a separator.
        let pc = tc.push(main_sep(style));
        let pb = tb.push(main_sep(style));
        assert(has_prefix(ta, pb));
        assert(has_prefix(tb, pc));
        assert(ta.subrange(0, pc.len() as int) =~= pc) by {
            assert forall|i: int| 0 <= i < pc.len() implies ta[i] == pc[i] by {
                assert(ta.subrange(0, pb.len() as int)[i] == pb[i]);
                assert(tb.subrange(0, pc.len() as int)[i] == pc[i]);
            }
        }
    }
}

/// A batch of paths is processed once per path: the deduplicated sequence
/// has no repeats and holds exactly the paths of the batch.
pub proof fn law_dedup(s: Seq<Seq<char>>)
    ensures
        dedup(s).no_duplicates(),
        forall|x: Seq<char>| dedup(s).contains(x) <==> s.contains(x),
    decreases s.len(),
{
    if s.len() > 0 {
        law_dedup(s.drop_last());
        let r = dedup(s.drop_last());
        assert forall|x: Seq<char>| dedup(s).contains(x) <==> s.contains(x) by {
            if s.contains(x) {
                let k = choose|k: int| 0 <= k < s.len() && s[k] == x;
                if k < s.len() - 1 {
                    assert(s.drop_last()[k] == x);
                    assert(s.drop_last().contains(x));
                }
            }
            if s.drop_last().contains(x) {
                let k = choose|k: int| 0 <= k < s.len() - 1 && s.drop_last()[k] == x;
                assert(s[k] == x);
            }
            if !r.contains(s.last()) && x == s.last() {
                assert(r.push(s.last())[r.len() as int] == x);
            }
            if dedup(s).contains(x) && !r.contains(s.last()) {
                let k = choose|k: int| 0 <= k < dedup(s).len() && dedup(s)[k] == x;
                if k < r.len() {
                    assert(r[k] == x);
                }
            }
            if r.contains(x) && !r.contains(s.last()) {
                let k = choose|k: int| 0 <= k < r.len() && r[k] == x;
                assert(r.push(s.last())[k] == x);
            }
        }
    }
}

/// The hit's path lies in one of `roots`.
pub open spec fn in_some_root(style: PathStyle, path: Seq<char>, roots: Seq<Seq<char>>) -> bool {
    exists|i: int| 0 <= i < roots.len() && under(style, path, #[trigger] roots[i])
}

/// When the search is restricted to some folders, every hit lies in one of
/// them; hits keep the index's ranking order.
pub proof fn law_hits_in_scope(style: PathStyle, docs: Seq<StoredDoc>, roots: Seq<Seq<char>>)
    requires
        roots.len() > 0,
        docs.len() <= usize::MAX,
    ensures
        forall|k: int|
            0 <= k < hits_spec(style, docs, Some(roots)).len() ==> in_some_root(style, 
                #[trigger] hits_spec(style, docs, Some(roots))[k].path,
                roots,
            ),
        forall|k: int, l: int|
            0 <= k < l < hits_spec(style, docs, Some(roots)).len() ==> hits_spec(style, docs, Some(roots))[k].rank
                < hits_spec(style, docs, Some(roots))[l].rank,
        forall|k: int|
            0 <= k < hits_spec(style, docs, Some(roots)).len() ==> hits_spec(style, docs, Some(roots))[k].rank
                < docs.len(),
    decreases docs.len(),
{
    if docs.len() > 0 {
        law_hits_in_scope(style, docs.drop_last(), roots);
        let r = hits_spec(style, docs.drop_last(), Some(roots));
        let h = hits_spec(style, docs, Some(roots));
        let last = docs.last();
        if in_scope(style, crate::search::text_or_empty(last.path), Some(roots)) {
            let n = (docs.len() - 1) as usize;
            assert(h == r.push(crate::search::hit_of(n, last)));
            assert forall|k: int| 0 <= k < h.len() implies in_some_root(style, #[trigger] h[k].path, roots) by {
                if k < r.len() {
                    assert(h[k] == r[k]);
                    assert(in_some_root(style, r[k].path, roots));
                }
            }
            assert forall|k: int, l: int| 0 <= k < l < h.len() implies h[k].rank < h[l].rank by {
                assert(h[k] == r[k]);
                if l < r.len() {
                    assert(h[l] == r[l]);
                }
            }
            assert forall|k: int| 0 <= k < h.len() implies h[k].rank < docs.len() by {
                if k < r.len() {
                    assert(h[k] == r[k]);
                }
            }
        } else {
            assert(h == r);
        }
    }
}

/// The folder that owns a path is an enabled folder that contains it.
pub proof fn law_owner_contains(style: PathStyle, path: Seq<char>, folders: Seq<FolderRow>)
    ensures
        owner_of(style, path, folders) matches Some(id) ==> exists|k: int|
            0 <= k < folders.len() && #[trigger] folders[k].id == id && folders[k].enabled && under(
                style,
                path,
                folders[k].path@,
            ),
    decreases folders.len(),
{
    if folders.len() > 0 {
        law_owner_contains(style, path, folders.drop_last());
        match owner_of(style, path, folders.drop_last()) {
            Some(id) => {
                let k = choose|k: int|
                    0 <= k < folders.drop_last().len() && #[trigger] folders.drop_last()[k].id == id
                        && folders.drop_last()[k].enabled && under(
                        style,
                        path,
                        folders.drop_last()[k].path@,
                    );
                assert(folders[k] == folders.drop_last()[k]);
            },
            None => {
                let k = folders.len() - 1;
                assert(folders[k] == folders.last());
            },
        }
    }
}

/// No character of `s` is `c`.
pub open spec fn free_of(s: Seq<char>, c: char) -> bool {
    forall|i: int| 0 <= i < s.len() ==> s[i] != c
}

/// A plain word: non-empty, without whitespace and without quotes.
pub open spec fn plain_word(w: Seq<char>) -> bool {
    &&& w.len() > 0
    &&& forall|i: int| 0 <= i < w.len() ==> !is_ws(#[trigger] w[i]) && w[i] != '"'
}

pub proof fn lemma_remove_all_free(s: Seq<char>, c: char)
    ensures
        free_of(remove_all(s, c), c),
    decreases s.len(),
{
    if s.len() > 0 {
        lemma_remove_all_free(s.drop_last(), c);
    }
}

pub proof fn lemma_split_quotes(s: Seq<char>)
    ensures
        free_of(split_quotes(s).1, '"'),
        forall|k: int|
            0 <= k < split_quotes(s).0.len() ==> free_of(#[trigger] split_quotes(s).0[k], '"')
                && !all_ws(split_quotes(s).0[k]),
    decreases s.len(),
{
    lemma_first_index_of(s, '"');
    let i = first_index_of(s, '"');
    if i >= 0 {
        let tail = s.subrange(i + 1, s.len() as int);
        lemma_first_index_of(tail, '"');
        let j = first_index_of(tail, '"');
        if j < 0 {
            lemma_remove_all_free(s, '"');
        } else {
            let phrase = tail.subrange(0, j);
            let rest = s.subrange(0, i) + tail.subrange(j + 1, tail.len() as int);
            lemma_split_quotes(rest);
            let (ps, r) = split_quotes(rest);
            assert(free_of(phrase, '"')) by {
                assert forall|m: int| 0 <= m < phrase.len() implies phrase[m] != '"' by {
                    assert(phrase[m] == tail[m]);
                }
            }
            if !all_ws(phrase) {
                let out = seq![phrase] + ps;
                assert forall|k: int| 0 <= k < out.len() implies free_of(#[trigger] out[k], '"')
                    && !all_ws(out[k]) by {
                    if k > 0 {
                        assert(out[k] == ps[k - 1]);
                    }
                }
            }
        }
    }
}

pub proof fn lemma_words_plain(s: Seq<char>)
    requires
        free_of(s, '"'),
    ensures
        forall|k: int| 0 <= k < words(s).len() ==> plain_word(#[trigger] words(s)[k]),
    decreases s.len(),
{
    if s.len() > 0 {
        let d = s.drop_last();
        assert(free_of(d, '"')) by {
            assert forall|m: int| 0 <= m < d.len() implies d[m] != '"' by {
                assert(d[m] == s[m]);
            }
        }
        lemma_words_plain(d);
        let w = words(d);
        let c = s.last();
        assert(c != '"') by {
            assert(s[s.len() - 1] != '"');
        }
        if !is_ws(c) {
            if s.len() >= 2 && !is_ws(s[s.len() - 2]) {
                lemma_words_nonempty(s.drop_last());
                let nw = w.last().push(c);
                assert(plain_word(w.last()));
                assert(plain_word(nw)) by {
                    assert forall|m: int| 0 <= m < nw.len() implies !is_ws(#[trigger] nw[m])
                        && nw[m] != '"' by {
                        if m < w.last().len() {
                            assert(nw[m] == w.last()[m]);
                        }
                    }
                }
                assert forall|k: int| 0 <= k < words(s).len() implies plain_word(
                    #[trigger] words(s)[k],
                ) by {
                    if k < w.len() - 1 {
                        assert(words(s)[k] == w[k]);
                    }
                }
            } else {
                assert(plain_word(seq![c]));
                assert forall|k: int| 0 <= k < words(s).len() implies plain_word(
                    #[trigger] words(s)[k],
                ) by {
                    if k < w.len() {
                        assert(words(s)[k] == w[k]);
                    }
                }
            }
        }
    }
}

/// `words(s)` is non-empty when `s` ends in a non-whitespace character.
pub proof fn lemma_words_nonempty(s: Seq<char>)
    requires
        s.len() > 0,
        !is_ws(s.last()),
    ensures
        words(s).len() > 0,
    decreases s.len(),
{
    if s.len() >= 2 && !is_ws(s[s.len() - 2]) {
        lemma_words_nonempty(s.drop_last());
    }
}

pub proof fn lemma_classify_general(toks: Seq<Seq<char>>)
    ensures
        forall|k: int|
            0 <= k < classify(toks).general.len() ==> toks.contains(
                #[trigger] classify(toks).general[k],
            ),
        classify(toks).phrases.len() == 0,
    decreases toks.len(),
{
    if toks.len() > 0 {
        lemma_classify_general(toks.drop_last());
        let q = classify(toks.drop_last());
        let g = classify(toks).general;
        assert forall|k: int| 0 <= k < g.len() implies toks.contains(#[trigger] g[k]) by {
            if k < q.general.len() {
                assert(g[k] == q.general[k]);
                let m = choose|m: int| 0 <= m < toks.drop_last().len() && toks.drop_last()[m]
                    == q.general[k];
                assert(toks[m] == g[k]);
            } else {
                assert(g[k] == toks.last());
                assert(toks[toks.len() - 1] == g[k]);
            }
        }
    }
}

/// Plain terms are plain words: after the phrases and operators are taken
/// out, every remaining term is non-empty and holds neither whitespace nor
/// quotes; every phrase holds no quote and is not blank.
pub proof fn law_parse_terms_are_plain(raw: Seq<char>)
    ensures
        forall|k: int|
            0 <= k < parse_spec(raw).general.len() ==> plain_word(
                #[trigger] parse_spec(raw).general[k],
            ),
        forall|k: int|
            0 <= k < parse_spec(raw).phrases.len() ==> free_of(
                #[trigger] parse_spec(raw).phrases[k],
                '"',
            ) && !all_ws(parse_spec(raw).phrases[k]),
{
    lemma_split_quotes(raw);
    let rest = split_quotes(raw).1;
    lemma_words_plain(rest);
    lemma_classify_general(words(rest));
    let g = parse_spec(raw).general;
    assert forall|k: int| 0 <= k < g.len() implies plain_word(#[trigger] g[k]) by {
        assert(words(rest).contains(g[k]));
        let m = choose|m: int| 0 <= m < words(rest).len() && words(rest)[m] == g[k];
        assert(plain_word(words(rest)[m]));
    }
}

pub proof fn lemma_pieces_concat(style: PathStyle, a: Seq<char>, b: Seq<char>, sep: char)
    requires
        is_sep(style, sep),
    ensures
        pieces(style, a + seq![sep] + b) == pieces(style, a) + pieces(style, b),
    decreases b.len(),
{
    lemma_pieces_nonempty(style, b);
    if b.len() == 0 {
        assert(a + seq![sep] + b =~= a.push(sep));
        assert((a + seq![sep] + b).drop_last() =~= a);
        assert(pieces(style, a) + pieces(style, b) =~= pieces(style, a).push(Seq::empty()));
    } else {
        let b1 = b.drop_last();
        lemma_pieces_concat(style, a, b1, sep);
        lemma_pieces_nonempty(style, b1);
        let s = a + seq![sep] + b;
        assert(s.drop_last() =~= a + seq![sep] + b1);
        assert(s.last() == b.last());
        let x = pieces(style, a) + pieces(style, b1);
        if is_sep(style, b.last()) {
            assert(x.push(Seq::empty()) =~= pieces(style, a) + pieces(style, b1).push(
                Seq::empty(),
            ));
        } else {
            assert(x.last() == pieces(style, b1).last());
            assert(x.drop_last() =~= pieces(style, a) + pieces(style, b1).drop_last());
            assert(x.drop_last().push(x.last().push(b.last())) =~= pieces(style, a) + pieces(
                style,
                b1,
            ).drop_last().push(pieces(style, b1).last().push(b.last())));
        }
    }
}

pub proof fn lemma_normal_concat(x: Seq<Seq<char>>, y: Seq<Seq<char>>)
    ensures
        normal_pieces(x + y) == normal_pieces(x) + normal_pieces(y),
    decreases y.len(),
{
    if y.len() == 0 {
        assert(x + y =~= x);
        assert(normal_pieces(x) + normal_pieces(y) =~= normal_pieces(x));
    } else {
        lemma_normal_concat(x, y.drop_last());
        assert((x + y).drop_last() =~= x + y.drop_last());
        assert((x + y).last() == y.last());
        if !(y.last().len() == 0 || y.last() == seq!['.']) {
            assert(normal_pieces(x) + normal_pieces(y.drop_last()).push(y.last()) =~= (
            normal_pieces(x) + normal_pieces(y.drop_last())).push(y.last()));
        }
    }
}

/// An empty path without prefix has no components.
pub proof fn lemma_empty_body(style: PathStyle)
    ensures
        body_components(style, Seq::<char>::empty()).len() == 0,
{
    let e = Seq::<char>::empty();
    let pd = pieces(style, e);
    assert(pd =~= seq![Seq::<char>::empty()]);
    assert(pd.drop_last() =~= Seq::<Seq<char>>::empty());
    assert(normal_pieces(pd) == normal_pieces(pd.drop_last()));
    assert(pd[0] != seq!['.']) by {
        assert(pd[0].len() == 0);
    }
}

/// Appending a separator and more components keeps the components that
/// were there, when it leaves the prefix as it was.
pub proof fn lemma_components_extend(style: PathStyle, dir: Seq<char>, sep: char, name: Seq<char>)
    requires
        is_sep(style, sep),
        dir.len() > 0,
        prefix_len(style, dir + seq![sep] + name) == prefix_len(style, dir),
    ensures
        components(style, dir).len() <= components(style, dir + seq![sep] + name).len(),
        forall|i: int|
            0 <= i < components(style, dir).len() ==> #[trigger] components(style, dir)[i]
                == components(style, dir + seq![sep] + name)[i],
{
    let p = dir + seq![sep] + name;
    lemma_prefix_len(style, dir);
    let d = prefix_len(style, dir);
    let bd = after_prefix(style, dir);
    assert(after_prefix(style, p) =~= bd + seq![sep] + name);
    assert(prefix_part(style, p) =~= prefix_part(style, dir)) by {
        if d > 0 {
            assert(p.subrange(0, d) =~= dir.subrange(0, d));
        }
    }
    let bp = bd + seq![sep] + name;
    if bd.len() == 0 {
        lemma_empty_body(style);
        assert(components(style, dir) =~= prefix_part(style, dir));
        assert forall|i: int| 0 <= i < components(style, dir).len() implies #[trigger] components(
            style,
            dir,
        )[i] == components(style, p)[i] by {
            assert(components(style, p)[i] == prefix_part(style, p)[i]);
        }
    } else {
        lemma_pieces_concat(style, bd, name, sep);
        lemma_pieces_nonempty(style, bd);
        lemma_pieces_nonempty(style, name);
        lemma_normal_concat(pieces(style, bd), pieces(style, name));
        assert(bp[0] == bd[0]);
        assert(pieces(style, bp)[0] == pieces(style, bd)[0]);
        assert(body_components(style, bp) =~= body_components(style, bd) + normal_pieces(
            pieces(style, name),
        ));
        assert(components(style, p) =~= components(style, dir) + normal_pieces(
            pieces(style, name),
        ));
        assert forall|i: int| 0 <= i < components(style, dir).len() implies #[trigger] components(
            style,
            dir,
        )[i] == components(style, p)[i] by {}
    }
}

/// An excluded directory excludes everything below it: a scan that does not
/// enter an excluded directory loses nothing it would have kept. (On Windows
/// this holds where the appended part does not complete an unfinished
/// prefix, as `\\server` followed by `share` would.)
pub proof fn law_exclusion_covers_subtree(
    style: PathStyle,
    dir: Seq<char>,
    sep: char,
    name: Seq<char>,
    extra: Seq<Seq<char>>,
)
    requires
        is_sep(style, sep),
        excluded(style, dir, extra),
        prefix_len(style, dir + seq![sep] + name) == prefix_len(style, dir),
    ensures
        excluded(style, dir + seq![sep] + name, extra),
{
    let p = dir + seq![sep] + name;
    let i = choose|i: int|
        0 <= i < components(style, dir).len() && (default_excludes().contains(
            #[trigger] components(style, dir)[i],
        ) || extra.contains(components(style, dir)[i]));
    assert(dir.len() > 0) by {
        if dir.len() == 0 {
            lemma_empty_body(style);
            assert(after_prefix(style, dir) =~= Seq::<char>::empty());
            assert(prefix_part(style, dir).len() == 0);
            assert(components(style, dir).len() == 0);
        }
    }
    lemma_components_extend(style, dir, sep, name);
    assert(components(style, p)[i] == components(style, dir)[i]);
}

/// Startup pruning removes exactly the indexed documents the database does
/// not know: an id is pruned if and only if it is indexed and unknown.
pub proof fn law_prune_unknown(ids: Seq<Seq<char>>, known: Seq<Seq<char>>)
    ensures
        forall|x: Seq<char>|
            #[trigger] not_in(ids, known).contains(x) <==> (ids.contains(x) && !known.contains(x)),
    decreases ids.len(),
{
    if ids.len() > 0 {
        law_prune_unknown(ids.drop_last(), known);
        let r = not_in(ids.drop_last(), known);
        assert forall|x: Seq<char>|
            #[trigger] not_in(ids, known).contains(x) <==> (ids.contains(x) && !known.contains(x)) by {
            if ids.contains(x) {
                let k = choose|k: int| 0 <= k < ids.len() && ids[k] == x;
                if k < ids.len() - 1 {
                    assert(ids.drop_last()[k] == x);
                }
            }
            if ids.drop_last().contains(x) {
                let k = choose|k: int| 0 <= k < ids.len() - 1 && ids.drop_last()[k] == x;
                assert(ids[k] == x);
            }
            if !known.contains(ids.last()) {
                assert(r.push(ids.last())[r.len() as int] == ids.last());
                if r.contains(x) {
                    let k = choose|k: int| 0 <= k < r.len() && r[k] == x;
                    assert(r.push(ids.last())[k] == x);
                }
                if r.push(ids.last()).contains(x) {
                    let k = choose|k: int| 0 <= k < r.len() + 1 && r.push(ids.last())[k] == x;
                    if k < r.len() {
                        assert(r[k] == x);
                    }
                }
            }
        }
    }
}

/// A stored path stays unmatched after a scanned file is visited exactly
/// when it was unmatched before and is not that file: the files an indexing
/// pass checks for removal are the stored files of the folder that no
/// scanned file matched.
pub proof fn law_unmatched_paths(s: Seq<Seq<char>>, p: Seq<char>)
    ensures
        forall|x: Seq<char>| #[trigger] without(s, p).contains(x) <==> (s.contains(x) && x != p),
    decreases s.len(),
{
    if s.len() > 0 {
        law_unmatched_paths(s.drop_last(), p);
        let r = without(s.drop_last(), p);
        assert forall|x: Seq<char>| #[trigger] without(s, p).contains(x) <==> (s.contains(x) && x
            != p) by {
            if s.contains(x) {
                let k = choose|k: int| 0 <= k < s.len() && s[k] == x;
                if k < s.len() - 1 {
                    assert(s.drop_last()[k] == x);
                }
            }
            if s.drop_last().contains(x) {
                let k = choose|k: int| 0 <= k < s.len() - 1 && s.drop_last()[k] == x;
                assert(s[k] == x);
            }
            if s.last() != p {
                assert(r.push(s.last())[r.len() as int] == s.last());
                if r.contains(x) {
                    let k = choose|k: int| 0 <= k < r.len() && r[k] == x;
                    assert(r.push(s.last())[k] == x);
                }
                if r.push(s.last()).contains(x) {
                    let k = choose|k: int| 0 <= k < r.len() + 1 && r.push(s.last())[k] == x;
                    if k < r.len() {
                        assert(r[k] == x);
                    }
                }
            }
        }
    }
}

/// Undoing the escaping: each backslash is dropped and the character after
/// it kept as it is.
pub open spec fn unescape(t: Seq<char>) -> Seq<char>
    decreases t.len(),
{
    if t.len() == 0 {
        t
    } else if t[0] == '\\' && t.len() >= 2 {
        seq![t[1]] + unescape(t.subrange(2, t.len() as int))
    } else {
        seq![t[0]] + unescape(t.subrange(1, t.len() as int))
    }
}

/// How many characters of `s` are special to the index's query syntax.
pub open spec fn special_count(s: Seq<char>) -> nat
    decreases s.len(),
{
    if s.len() == 0 {
        0
    } else {
        special_count(s.drop_last()) + if is_special(s.last()) {
            1nat
        } else {
            0nat
        }
    }
}

pub proof fn lemma_unescape_escaped(a: Seq<char>, u: Seq<char>)
    ensures
        unescape(escaped(a) + u) == a + unescape(u),
    decreases a.len(),
{
    if a.len() == 0 {
        assert(escaped(a) + u =~= u);
        assert(a + unescape(u) =~= unescape(u));
    } else {
        let a1 = a.drop_last();
        let c = a.last();
        let piece = if is_special(c) {
            seq!['\\', c]
        } else {
            seq![c]
        };
        assert(escaped(a) =~= escaped(a1) + piece);
        assert(escaped(a) + u =~= escaped(a1) + (piece + u));
        lemma_unescape_escaped(a1, piece + u);
        let t = piece + u;
        if is_special(c) {
            assert(t.subrange(2, t.len() as int) =~= u);
        } else {
            assert(t[0] == c);
            assert(t.subrange(1, t.len() as int) =~= u);
        }
        assert(unescape(t) == seq![c] + unescape(u));
        assert(a1 + (seq![c] + unescape(u)) =~= a + unescape(u));
    }
}

/// Escaping can be undone: deleting each escaping backslash gives the term
/// back, and the escaped term is longer by exactly one character for each
/// special character.
pub proof fn law_escape_roundtrip(s: Seq<char>)
    ensures
        unescape(escaped(s)) == s,
        escaped(s).len() == s.len() + special_count(s),
    decreases s.len(),
{
    lemma_unescape_escaped(s, Seq::empty());
    assert(escaped(s) + Seq::<char>::empty() =~= escaped(s));
    assert(s + unescape(Seq::<char>::empty()) =~= s);
    if s.len() > 0 {
        law_escape_roundtrip(s.drop_last());
    }
}

/// The ASCII digit for `d`.
pub open spec fn digit_char(d: nat) -> char {
    (d + 48) as char
}

/// The decimal numeral for `n`, without leading zeros.
pub open spec fn decimal(n: nat) -> Seq<char>
    decreases n,
{
    if n < 10 {
        seq![digit_char(n)]
    } else {
        decimal(n / 10).push(digit_char(n % 10))
    }
}

pub proof fn lemma_decimal(n: nat)
    ensures
        decimal(n).len() > 0,
        all_digits(decimal(n)),
        digits_value(decimal(n)) == n,
    decreases n,
{
    if n < 10 {
        let d = decimal(n);
        assert((digit_char(n) as u32) == n + 48);
        assert(d.drop_last() =~= Seq::<char>::empty());
        assert(digits_value(d.drop_last()) == 0);
        assert(d.last() == digit_char(n));
        assert(digits_value(d) == n);
        assert forall|i: int| 0 <= i < d.len() implies 48 <= (#[trigger] d[i]) as u32 && (d[i] as u32)
            <= 57 by {
            assert(d[i] == digit_char(n));
        }
    } else {
        lemma_decimal(n / 10);
        let d = decimal(n);
        let h = decimal(n / 10);
        assert(all_digits(h));
        assert(d.drop_last() =~= h);
        assert((digit_char(n % 10) as u32) == n % 10 + 48);
        assert forall|i: int| 0 <= i < d.len() implies 48 <= (#[trigger] d[i]) as u32 && (d[i] as u32)
            <= 57 by {
            if i < h.len() {
                assert(d[i] == h[i]);
                assert(48 <= (h[i] as u32) && (h[i] as u32) <= 57);
            } else {
                assert(d[i] == digit_char(n % 10));
            }
        }
        assert(d.last() == digit_char(n % 10));
        assert(digits_value(d) == digits_value(h) * 10 + n % 10);
        assert((n / 10) * 10 + n % 10 == n) by (nonlinear_arith);
    }
}

/// `slide_number` reads back every slide part name: the part
/// `ppt/slides/slide{n}.xml` has number `n`.
pub proof fn law_slide_number_roundtrip(n: u32)
    ensures
        slide_number_spec("ppt/slides/slide"@ + decimal(n as nat) + ".xml"@) == Some(n as nat),
{
    let pre = "ppt/slides/slide"@;
    let suf = ".xml"@;
    let d = decimal(n as nat);
    lemma_decimal(n as nat);
    let name = pre + d + suf;
    assert(name.subrange(0, pre.len() as int) =~= pre);
    let rest = name.subrange(pre.len() as int, name.len() as int);
    assert(rest =~= d + suf);
    assert(rest.subrange(rest.len() - suf.len(), rest.len() as int) =~= suf);
    assert(rest.subrange(0, rest.len() - suf.len()) =~= d);
    assert(d[0] != '+') by {
        assert(48 <= (d[0] as u32));
    }
    assert(parse_uint(d, u32::MAX as nat) == Some(n as nat));
}

/// The file name of a path that has one, as `file_name` finds it: a
/// non-empty piece of the path without separators, other than `.` and `..`.
pub proof fn lemma_file_name(style: PathStyle, p: Seq<char>)
    ensures
        file_name(style, p) matches Some(n) ==> {
            &&& n.len() > 0
            &&& n != seq!['.'] && n != seq!['.', '.']
            &&& forall|i: int| 0 <= i < n.len() ==> !is_sep(style, #[trigger] n[i])
            &&& forall|i: int| 0 <= i < n.len() ==> p.contains(#[trigger] n[i])
        },
{
    let b = after_prefix(style, p);
    lemma_prefix_len(style, p);
    lemma_last_component(style, b);
    if let Some(n) = file_name(style, p) {
        assert forall|i: int| 0 <= i < n.len() implies p.contains(#[trigger] n[i]) by {
            assert(b.contains(n[i]));
            let j = choose|j: int| 0 <= j < b.len() && b[j] == n[i];
            assert(p[j + prefix_len(style, p)] == b[j]);
        }
    }
}

/// Taking the file name twice changes nothing (on Windows, for paths without
/// a `:`, which could start a drive prefix inside the name).
pub proof fn law_filename_idempotent(style: PathStyle, p: Seq<char>)
    requires
        style == PathStyle::Unix || !p.contains(':'),
    ensures
        filename_spec(style, filename_spec(style, p)) == filename_spec(style, p),
{
    lemma_file_name(style, p);
    if let Some(n) = file_name(style, p) {
        assert(prefix_len(style, n) == 0) by {
            if style == PathStyle::Windows && n.len() >= 2 && n[1] == ':' {
                assert(p.contains(n[1]));
            }
            if n.len() >= 2 {
                assert(!is_sep(style, n[0]));
            }
        }
        assert(after_prefix(style, n) =~= n);
        lemma_last_sep_index(style, n);
        assert(last_sep_index(style, n) == -1) by {
            if last_sep_index(style, n) >= 0 {
                assert(!is_sep(style, n[last_sep_index(style, n)]));
            }
        }
        assert(n.subrange(0, n.len() as int) =~= n);
        assert(last_component(style, n) == Some(n));
    }
}

/// The extension is lower case, holds no dot and no separator, and when it
/// is not empty the lower-cased file name ends with a dot and it.
pub proof fn law_extension_shape(style: PathStyle, p: Seq<char>)
    ensures
        ascii_lower(extension_spec(style, p)) == extension_spec(style, p),
        !extension_spec(style, p).contains('.'),
        forall|i: int|
            0 <= i < extension_spec(style, p).len() ==> !is_sep(
                style,
                #[trigger] extension_spec(style, p)[i],
            ),
        extension_spec(style, p).len() == 0 || has_suffix(
            ascii_lower(filename_spec(style, p)),
            seq!['.'] + extension_spec(style, p),
        ),
{
    let e = extension_spec(style, p);
    lemma_file_name(style, p);
    if let Some(n) = file_name(style, p) {
        if let Some(raw) = name_extension(n) {
            lemma_last_index_of(n, '.');
            let d = last_index_of(n, '.');
            assert(e == ascii_lower(raw));
            assert forall|i: int| 0 <= i < raw.len() implies raw[i] != '.' && !is_sep(
                style,
                #[trigger] raw[i],
            ) by {
                assert(raw[i] == n[d + 1 + i]);
            }
            assert(ascii_lower(e) =~= e);
            assert(!e.contains('.')) by {
                if e.contains('.') {
                    let j = choose|j: int| 0 <= j < e.len() && e[j] == '.';
                    assert(e[j] == ascii_lower_char(raw[j]));
                }
            }
            assert forall|i: int| 0 <= i < e.len() implies !is_sep(style, #[trigger] e[i]) by {
                assert(e[i] == ascii_lower_char(raw[i]));
            }
            let ln = ascii_lower(n);
            let tail = seq!['.'] + e;
            assert(ln.subrange(ln.len() - tail.len(), ln.len() as int) =~= tail) by {
                assert forall|j: int| 0 <= j < tail.len() implies ln.subrange(
                    ln.len() - tail.len(),
                    ln.len() as int,
                )[j] == tail[j] by {
                    assert(ln[d + j] == ascii_lower_char(n[d + j]));
                    if j > 0 {
                        assert(n[d + j] == raw[j - 1]);
                    }
                }
            }
        } else {
            assert(e =~= Seq::<char>::empty());
        }
    } else {
        assert(e =~= Seq::<char>::empty());
    }
}

/// The translated query is the AND of one clause per part of the parsed
/// query, in order: each plain term, each phrase, each `name:` term, each
/// `path:` term and each `ext:` filter gives its own clause, escaped, behind
/// its field.
pub proof fn law_query_clauses(q: QueryView) -> (cl: Seq<Seq<char>>)
    ensures
        ({
                &&& tantivy_query_spec(q) == join(cl, " AND "@)
                &&& cl.len() == q.general.len() + q.phrases.len() + q.filename_terms.len()
                    + q.path_terms.len() + q.ext_filters.len()
                &&& forall|k: int|
                    0 <= k < q.general.len() ==> #[trigger] cl[k] == "filename:"@ + escaped(
                        q.general[k],
                    )
                &&& forall|k: int|
                    0 <= k < q.phrases.len() ==> #[trigger] cl[q.general.len() + k]
                        == "filename:\""@ + escaped(q.phrases[k]) + "\""@
                &&& forall|k: int|
                    0 <= k < q.filename_terms.len() ==> #[trigger] cl[q.general.len()
                        + q.phrases.len() + k] == "filename:"@ + escaped(q.filename_terms[k])
                &&& forall|k: int|
                    0 <= k < q.path_terms.len() ==> #[trigger] cl[q.general.len() + q.phrases.len()
                        + q.filename_terms.len() + k] == "path:"@ + escaped(q.path_terms[k])
                &&& forall|k: int|
                    0 <= k < q.ext_filters.len() ==> #[trigger] cl[q.general.len()
                        + q.phrases.len() + q.filename_terms.len() + q.path_terms.len() + k]
                        == "extension:"@ + escaped(q.ext_filters[k])
            }),
{
    let a = clauses_of("filename:"@, q.general);
    let b = phrase_clauses(q.phrases);
    let c = clauses_of("filename:"@, q.filename_terms);
    let d = clauses_of("path:"@, q.path_terms);
    let e = clauses_of("extension:"@, q.ext_filters);
    let cl = a + b + c + d + e;
    let g = q.general.len() as int;
    let p = q.phrases.len() as int;
    let f = q.filename_terms.len() as int;
    let t = q.path_terms.len() as int;
    assert forall|k: int| 0 <= k < g implies #[trigger] cl[k] == "filename:"@ + escaped(
        q.general[k],
    ) by {
        assert(cl[k] == a[k]);
    }
    assert forall|k: int| 0 <= k < p implies #[trigger] cl[g + k] == "filename:\""@ + escaped(
        q.phrases[k],
    ) + "\""@ by {
        assert(cl[g + k] == b[k]);
    }
    assert forall|k: int| 0 <= k < f implies #[trigger] cl[g + p + k] == "filename:"@ + escaped(
        q.filename_terms[k],
    ) by {
        assert(cl[g + p + k] == c[k]);
    }
    assert forall|k: int| 0 <= k < t implies #[trigger] cl[g + p + f + k] == "path:"@ + escaped(
        q.path_terms[k],
    ) by {
        assert(cl[g + p + f + k] == d[k]);
    }
    assert forall|k: int| 0 <= k < q.ext_filters.len() implies #[trigger] cl[g + p + f + t + k]
        == "extension:"@ + escaped(q.ext_filters[k]) by {
        assert(cl[g + p + f + t + k] == e[k]);
    }
    cl
}

/// The values of the tokens that carry the operator `op` followed by a
/// non-empty value, in order.
pub open spec fn op_values(toks: Seq<Seq<char>>, op: Seq<char>) -> Seq<Seq<char>>
    decreases toks.len(),
{
    if toks.len() == 0 {
        Seq::empty()
    } else {
        let r = op_values(toks.drop_last(), op);
        let t = toks.last();
        if has_prefix(t, op) && t.len() > op.len() {
            r.push(t.subrange(op.len() as int, t.len() as int))
        } else {
            r
        }
    }
}

/// The tokens that carry no operator, in order.
pub open spec fn plain_tokens(toks: Seq<Seq<char>>) -> Seq<Seq<char>>
    decreases toks.len(),
{
    if toks.len() == 0 {
        Seq::empty()
    } else {
        let r = plain_tokens(toks.drop_last());
        let t = toks.last();
        if has_prefix(t, "name:"@) || has_prefix(t, "ext:"@) || has_prefix(t, "path:"@) {
            r
        } else {
            r.push(t)
        }
    }
}

/// A token starts with at most one of the operators.
pub proof fn lemma_operators_disjoint(t: Seq<char>)
    ensures
        !(has_prefix(t, "name:"@) && has_prefix(t, "ext:"@)),
        !(has_prefix(t, "name:"@) && has_prefix(t, "path:"@)),
        !(has_prefix(t, "ext:"@) && has_prefix(t, "path:"@)),
{
    reveal_strlit("name:");
    reveal_strlit("ext:");
    reveal_strlit("path:");
    if has_prefix(t, "name:"@) {
        assert(t[0] == t.subrange(0, 5)[0]);
    }
    if has_prefix(t, "ext:"@) {
        assert(t[0] == t.subrange(0, 4)[0]);
    }
    if has_prefix(t, "path:"@) {
        assert(t[0] == t.subrange(0, 5)[0]);
    }
}

pub proof fn lemma_classify_operators(toks: Seq<Seq<char>>)
    ensures
        classify(toks).filename_terms == op_values(toks, "name:"@).map_values(
            |v: Seq<char>| lowercase(v),
        ),
        classify(toks).path_terms == op_values(toks, "path:"@).map_values(
            |v: Seq<char>| lowercase(v),
        ),
        classify(toks).ext_filters == op_values(toks, "ext:"@).map_values(
            |v: Seq<char>| trim_leading_dots(lowercase(v)),
        ),
        classify(toks).general == plain_tokens(toks),
    decreases toks.len(),
{
    if toks.len() > 0 {
        let d = toks.drop_last();
        let t = toks.last();
        lemma_classify_operators(d);
        lemma_operators_disjoint(t);
        let q = classify(d);
        assert(classify(toks) == add_token(q, t));
        let nm = op_values(d, "name:"@);
        let pt = op_values(d, "path:"@);
        let ex = op_values(d, "ext:"@);
        if has_prefix(t, "name:"@) && t.len() > "name:"@.len() {
            assert(op_values(toks, "name:"@).map_values(|v: Seq<char>| lowercase(v))
                =~= nm.map_values(|v: Seq<char>| lowercase(v)).push(
                lowercase(t.subrange("name:"@.len() as int, t.len() as int)),
            ));
        }
        if has_prefix(t, "path:"@) && t.len() > "path:"@.len() {
            assert(op_values(toks, "path:"@).map_values(|v: Seq<char>| lowercase(v))
                =~= pt.map_values(|v: Seq<char>| lowercase(v)).push(
                lowercase(t.subrange("path:"@.len() as int, t.len() as int)),
            ));
        }
        if has_prefix(t, "ext:"@) && t.len() > "ext:"@.len() {
            assert(op_values(toks, "ext:"@).map_values(|v: Seq<char>| trim_leading_dots(lowercase(v)))
                =~= ex.map_values(|v: Seq<char>| trim_leading_dots(lowercase(v))).push(
                trim_leading_dots(lowercase(t.subrange("ext:"@.len() as int, t.len() as int))),
            ));
        }
    }
}

/// Parsing keeps every token: the `name:`, `path:` and `ext:` lists hold,
/// in order, the lower-cased value of every token with that operator and a
/// non-empty value (an `ext:` value also loses its leading dots); the plain
/// terms are the tokens with no operator, in order; the phrases are the
/// quoted phrases.
pub proof fn law_parse_keeps_every_token(raw: Seq<char>)
    ensures
        parse_spec(raw).filename_terms == op_values(words(split_quotes(raw).1), "name:"@).map_values(
            |v: Seq<char>| lowercase(v),
        ),
        parse_spec(raw).path_terms == op_values(words(split_quotes(raw).1), "path:"@).map_values(
            |v: Seq<char>| lowercase(v),
        ),
        parse_spec(raw).ext_filters == op_values(words(split_quotes(raw).1), "ext:"@).map_values(
            |v: Seq<char>| trim_leading_dots(lowercase(v)),
        ),
        parse_spec(raw).general == plain_tokens(words(split_quotes(raw).1)),
        parse_spec(raw).phrases == split_quotes(raw).0,
{
    lemma_classify_operators(words(split_quotes(raw).1));
}

/// Each hit carries the stored fields of the document at its rank, missing
/// text fields as empty and missing numbers as 0; and every document that
/// lies in scope gives a hit.
pub proof fn law_hits_carry_fields(
    style: PathStyle,
    docs: Seq<StoredDoc>,
    roots: Option<Seq<Seq<char>>>,
)
    requires
        docs.len() <= usize::MAX,
    ensures
        forall|k: int|
            0 <= k < hits_spec(style, docs, roots).len() ==> {
                let h = #[trigger] hits_spec(style, docs, roots)[k];
                let d = docs[h.rank as int];
                &&& h.rank < docs.len()
                &&& h.doc_id == text_or_empty(d.doc_id)
                &&& h.path == text_or_empty(d.path)
                &&& h.filename == text_or_empty(d.filename)
                &&& h.extension == text_or_empty(d.extension)
                &&& d.size matches Some(s) ==> h.size == s
                &&& d.size is None ==> h.size == 0
                &&& d.modified_at matches Some(m) ==> h.modified_at == m
                &&& d.modified_at is None ==> h.modified_at == 0
            },
        forall|i: int|
            0 <= i < docs.len() && in_scope(style, text_or_empty(#[trigger] docs[i].path), roots)
                ==> exists|k: int|
                0 <= k < hits_spec(style, docs, roots).len() && hits_spec(style, docs, roots)[k].rank
                    == i,
    decreases docs.len(),
{
    if docs.len() > 0 {
        let dd = docs.drop_last();
        law_hits_carry_fields(style, dd, roots);
        let r = hits_spec(style, dd, roots);
        let h = hits_spec(style, docs, roots);
        assert forall|i: int| 0 <= i < dd.len() implies #[trigger] dd[i] == docs[i] by {}
        if in_scope(style, text_or_empty(docs.last().path), roots) {
            assert(h == r.push(crate::search::hit_of((docs.len() - 1) as usize, docs.last())));
            assert forall|k: int| 0 <= k < h.len() implies {
                let hk = #[trigger] h[k];
                let d = docs[hk.rank as int];
                &&& hk.rank < docs.len()
                &&& hk.doc_id == text_or_empty(d.doc_id)
                &&& hk.path == text_or_empty(d.path)
                &&& hk.filename == text_or_empty(d.filename)
                &&& hk.extension == text_or_empty(d.extension)
                &&& d.size matches Some(s) ==> hk.size == s
                &&& d.size is None ==> hk.size == 0
                &&& d.modified_at matches Some(m) ==> hk.modified_at == m
                &&& d.modified_at is None ==> hk.modified_at == 0
            } by {
                if k < r.len() {
                    assert(h[k] == r[k]);
                    assert(dd[r[k].rank as int] == docs[r[k].rank as int]);
                }
            }
            assert forall|i: int|
                0 <= i < docs.len() && in_scope(style, text_or_empty(#[trigger] docs[i].path), roots)
                    implies exists|k: int| 0 <= k < h.len() && h[k].rank == i by {
                if i < dd.len() {
                    assert(dd[i] == docs[i]);
                    let k = choose|k: int| 0 <= k < r.len() && r[k].rank == i;
                    assert(h[k] == r[k]);
                } else {
                    assert(h[r.len() as int].rank == i);
                }
            }
        } else {
            assert(h == r);
            assert forall|k: int| 0 <= k < h.len() implies {
                let hk = #[trigger] h[k];
                let d = docs[hk.rank as int];
                &&& hk.rank < docs.len()
                &&& hk.doc_id == text_or_empty(d.doc_id)
                &&& hk.path == text_or_empty(d.path)
                &&& hk.filename == text_or_empty(d.filename)
                &&& hk.extension == text_or_empty(d.extension)
                &&& d.size matches Some(s) ==> hk.size == s
                &&& d.size is None ==> hk.size == 0
                &&& d.modified_at matches Some(m) ==> hk.modified_at == m
                &&& d.modified_at is None ==> hk.modified_at == 0
            } by {
                assert(dd[r[k].rank as int] == docs[r[k].rank as int]);
            }
            assert forall|i: int|
                0 <= i < docs.len() && in_scope(style, text_or_empty(#[trigger] docs[i].path), roots)
                    implies exists|k: int| 0 <= k < h.len() && h[k].rank == i by {
                assert(i < dd.len());
                assert(dd[i] == docs[i]);
            }
        }
    }
}

/// The extractor table: each supported extension with its extractor, and no
/// extractor for any other.
pub proof fn law_extractor_table(ext: Seq<char>)
    ensures
        kind_for(ext) == Some(ExtractorKind::Text) <==> (ext == "txt"@ || ext == "md"@ || ext
            == "csv"@ || ext == "json"@ || ext == "xml"@ || ext == "html"@ || ext == "htm"@),
        kind_for(ext) == Some(ExtractorKind::Docx) <==> ext == "docx"@,
        kind_for(ext) == Some(ExtractorKind::Pptx) <==> ext == "pptx"@,
        kind_for(ext) == Some(ExtractorKind::Xlsx) <==> ext == "xlsx"@,
        kind_for(ext) == Some(ExtractorKind::Pdf) <==> ext == "pdf"@,
        kind_for(ext) == Some(ExtractorKind::Tika) <==> (ext == "doc"@ || ext == "ppt"@ || ext
            == "xls"@),
{
    reveal_strlit("txt");
    reveal_strlit("md");
    reveal_strlit("csv");
    reveal_strlit("json");
    reveal_strlit("xml");
    reveal_strlit("html");
    reveal_strlit("htm");
    reveal_strlit("docx");
    reveal_strlit("pptx");
    reveal_strlit("xlsx");
    reveal_strlit("pdf");
    reveal_strlit("doc");
    reveal_strlit("ppt");
    reveal_strlit("xls");
    if ext == "txt"@ {
        assert(ext.len() == 3 && ext[0] == 't' && ext[1] == 'x' && ext[2] == 't');
    }
    if ext == "md"@ {
        assert(ext.len() == 2 && ext[0] == 'm' && ext[1] == 'd');
    }
    if ext == "csv"@ {
        assert(ext.len() == 3 && ext[0] == 'c' && ext[1] == 's' && ext[2] == 'v');
    }
    if ext == "json"@ {
        assert(ext.len() == 4 && ext[0] == 'j' && ext[1] == 's' && ext[2] == 'o' && ext[3] == 'n');
    }
    if ext == "xml"@ {
        assert(ext.len() == 3 && ext[0] == 'x' && ext[1] == 'm' && ext[2] == 'l');
    }
    if ext == "html"@ {
        assert(ext.len() == 4 && ext[0] == 'h' && ext[1] == 't' && ext[2] == 'm' && ext[3] == 'l');
    }
    if ext == "htm"@ {
        assert(ext.len() == 3 && ext[0] == 'h' && ext[1] == 't' && ext[2] == 'm');
    }
    if ext == "docx"@ {
        assert(ext.len() == 4 && ext[0] == 'd' && ext[1] == 'o' && ext[2] == 'c' && ext[3] == 'x');
    }
    if ext == "pptx"@ {
        assert(ext.len() == 4 && ext[0] == 'p' && ext[1] == 'p' && ext[2] == 't' && ext[3] == 'x');
    }
    if ext == "xlsx"@ {
        assert(ext.len() == 4 && ext[0] == 'x' && ext[1] == 'l' && ext[2] == 's' && ext[3] == 'x');
    }
    if ext == "pdf"@ {
        assert(ext.len() == 3 && ext[0] == 'p' && ext[1] == 'd' && ext[2] == 'f');
    }
    if ext == "doc"@ {
        assert(ext.len() == 3 && ext[0] == 'd' && ext[1] == 'o' && ext[2] == 'c');
    }
    if ext == "ppt"@ {
        assert(ext.len() == 3 && ext[0] == 'p' && ext[1] == 'p' && ext[2] == 't');
    }
    if ext == "xls"@ {
        assert(ext.len() == 3 && ext[0] == 'x' && ext[1] == 'l' && ext[2] == 's');
    }
}

/// The owner of a path is found whenever one exists: when some enabled
/// folder contains the path, the owner is the first such folder; when none
/// does, there is no owner.
pub proof fn law_owner_complete(style: PathStyle, path: Seq<char>, folders: Seq<FolderRow>)
    ensures
        forall|k: int|
            0 <= k < folders.len() && #[trigger] folders[k].enabled && under(
                style,
                path,
                folders[k].path@,
            ) && (forall|j: int|
                0 <= j < k ==> !(folders[j].enabled && under(style, path, folders[j].path@)))
                ==> owner_of(style, path, folders) == Some(folders[k].id),
        (forall|k: int|
            0 <= k < folders.len() ==> !(#[trigger] folders[k].enabled && under(
                style,
                path,
                folders[k].path@,
            ))) ==> owner_of(style, path, folders) is None,
    decreases folders.len(),
{
    if folders.len() > 0 {
        let d = folders.drop_last();
        law_owner_complete(style, path, d);
        assert forall|i: int| 0 <= i < d.len() implies #[trigger] d[i] == folders[i] by {}
        assert forall|k: int|
            0 <= k < folders.len() && #[trigger] folders[k].enabled && under(
                style,
                path,
                folders[k].path@,
            ) && (forall|j: int|
                0 <= j < k ==> !(folders[j].enabled && under(style, path, folders[j].path@)))
                implies owner_of(style, path, folders) == Some(folders[k].id) by {
            if k < d.len() {
                assert(d[k] == folders[k]);
                assert forall|j: int| 0 <= j < k implies !(d[j].enabled && under(
                    style,
                    path,
                    d[j].path@,
                )) by {
                    assert(d[j] == folders[j]);
                }
                assert(owner_of(style, path, d) == Some(d[k].id));
            } else {
                assert forall|j: int| 0 <= j < d.len() implies !(#[trigger] d[j].enabled && under(
                    style,
                    path,
                    d[j].path@,
                )) by {
                    assert(d[j] == folders[j]);
                }
                assert(owner_of(style, path, d) is None);
                assert(folders.last() == folders[k]);
            }
        }
        if forall|k: int|
            0 <= k < folders.len() ==> !(#[trigger] folders[k].enabled && under(
                style,
                path,
                folders[k].path@,
            )) {
            assert forall|j: int| 0 <= j < d.len() implies !(#[trigger] d[j].enabled && under(
                style,
                path,
                d[j].path@,
            )) by {
                assert(d[j] == folders[j]);
            }
            assert(folders.last() == folders[folders.len() - 1]);
        }
    }
}

/// A folder contains exactly the paths that, once normalised, equal it or
/// continue it after a separator: `/projects` does not contain
/// `/projectsBackup`.
pub proof fn law_under_boundary(style: PathStyle, c: Seq<char>, p: Seq<char>)
    ensures
        under(style, c, p) <==> (norm(style, c) == norm(style, p) || (norm(style, c).len() > norm(
            style,
            p,
        ).len() && norm(style, c).subrange(0, norm(style, p).len() as int) == norm(style, p)
            && norm(style, c)[norm(style, p).len() as int] == main_sep(style))),
{
    let a = norm(style, c);
    let b = norm(style, p);
    let bs = b.push(main_sep(style));
    if has_prefix(a, bs) {
        assert(a.subrange(0, b.len() as int) =~= bs.subrange(0, b.len() as int));
        assert(bs.subrange(0, b.len() as int) =~= b);
        assert(a[b.len() as int] == a.subrange(0, bs.len() as int)[b.len() as int]);
    }
    if a.len() > b.len() && a.subrange(0, b.len() as int) == b && a[b.len() as int] == main_sep(
        style,
    ) {
        assert(a.subrange(0, bs.len() as int) =~= bs) by {
            assert forall|j: int| 0 <= j < bs.len() implies a.subrange(0, bs.len() as int)[j]
                == bs[j] by {
                if j < b.len() {
                    assert(a.subrange(0, b.len() as int)[j] == b[j]);
                }
            }
        }
    }
}

/// An incremental pass skips a file exactly when the database holds it with
/// the size and modification time found on disk; a full pass skips none.
pub proof fn law_skip_rule(incremental: bool, stored: Option<FileMeta>, size: u64, mtime: i64)
    ensures
        skips(incremental, stored, size, mtime) <==> (incremental && stored is Some
            && stored->0.size == size && stored->0.mtime == mtime),
{
}

/// A quoted phrase is taken out whole: in a query with one pair of quotes
/// around a phrase that is not blank, the phrase is the one phrase parsed
/// and the text around the quotes is what is left for the terms.
pub proof fn law_phrase_taken_out(a: Seq<char>, w: Seq<char>, b: Seq<char>)
    requires
        free_of(a, '"'),
        free_of(w, '"'),
        free_of(b, '"'),
        !all_ws(w),
    ensures
        split_quotes(a + seq!['"'] + w + seq!['"'] + b) == (seq![w], a + b),
{
    let s = a + seq!['"'] + w + seq!['"'] + b;
    lemma_first_index_of(s, '"');
    let i = first_index_of(s, '"');
    assert(i == a.len()) by {
        assert(s[a.len() as int] == '"');
        if i < a.len() {
            assert(s[i] == a[i]);
        }
    }
    let tail = s.subrange(i + 1, s.len() as int);
    assert(tail =~= w + seq!['"'] + b);
    lemma_first_index_of(tail, '"');
    let j = first_index_of(tail, '"');
    assert(j == w.len()) by {
        assert(tail[w.len() as int] == '"');
        if j < w.len() {
            assert(tail[j] == w[j]);
        }
    }
    assert(tail.subrange(0, j) =~= w);
    let rest = s.subrange(0, i) + tail.subrange(j + 1, tail.len() as int);
    assert(rest =~= a + b);
    lemma_first_index_of(rest, '"');
    if first_index_of(rest, '"') >= 0 {
        let k = first_index_of(rest, '"');
        if k < a.len() {
            assert(rest[k] == a[k]);
        } else {
            assert(rest[k] == b[k - a.len()]);
        }
    }
    assert(split_quotes(rest) == (Seq::<Seq<char>>::empty(), rest));
    assert(seq![w] + Seq::<Seq<char>>::empty() =~= seq![w]);
}

} // verus!
