//! Text extraction from documents: choosing the extractor by extension,
//! reading the parts of Office archives in order, decoding plain text, and
//! turning every outcome into an `Extraction`.
use vstd::prelude::*;
use std::io::Read;
use crate::order::{sort_lex, sort_pairs, sorted_lex, sorted_pairs};
use crate::paths::{extension_chars, extension_spec, file_name, host_style, last_index_of, PathStyle};
use crate::query::{starts_with, strs};
use crate::scanner::chars_eq;
use crate::strings::{
    append_chars, chars_of, collapse_ws, has_prefix, has_suffix, slice_chars, string_of,
};
use crate::xml_text::{
    collapse_whitespace, error_message, parse_uint, parse_unsigned, part_text, part_text_spec,
    shared_strings, xml_error,
    shared_strings_spec, sheet_text, sheet_text_spec, slide_text, slide_text_spec,
};
use vstd::utf8::{decode_utf8, valid_utf8};

verus! {

broadcast use vstd::seq_lib::group_to_multiset_ensures;

/// Text pulled out of a document.
pub struct ExtractedDocument {
    pub title: Option<String>,
    pub content: String,
    pub author: Option<String>,
}

/// The outcome of extracting one file.
pub enum Extraction {
    Done(ExtractedDocument),
    Skipped(String),
    Failed(String),
}

/// Which extractor handles a file.
#[derive(PartialEq, Eq, Structural, Clone, Copy, Debug)]
pub enum ExtractorKind {
    /// Plain text formats (`txt`, `md`, `csv`, `json`, `xml`, `html`, `htm`).
    Text,
    Docx,
    Pptx,
    Xlsx,
    Pdf,
    /// Legacy binary Office formats (`doc`, `ppt`, `xls`), sent to a Tika server.
    Tika,
}

/// What was read for a file: its bytes (plain text and Office archives), the
/// text another program produced for it (PDF, Tika), why reading failed, or
/// why the extraction server could not be reached.
pub enum SourceData {
    Bytes(Vec<u8>),
    Text(String),
    Failure(String),
    Unreachable(String),
}

/// A document as character sequences.
pub struct DocView {
    pub title: Option<Seq<char>>,
    pub content: Seq<char>,
    pub author: Option<Seq<char>>,
}

pub open spec fn opt_view(o: Option<String>) -> Option<Seq<char>> {
    match o {
        Some(s) => Some(s@),
        None => None,
    }
}

impl View for ExtractedDocument {
    type V = DocView;

    open spec fn view(&self) -> DocView {
        DocView { title: opt_view(self.title), content: self.content@, author: opt_view(self.author) }
    }
}

/// An extraction as character sequences.
pub enum ExtractionView {
    Done(DocView),
    Skipped(Seq<char>),
    Failed(Seq<char>),
}

impl View for Extraction {
    type V = ExtractionView;

    open spec fn view(&self) -> ExtractionView {
        match self {
            Extraction::Done(d) => ExtractionView::Done(d@),
            Extraction::Skipped(s) => ExtractionView::Skipped(s@),
            Extraction::Failed(s) => ExtractionView::Failed(s@),
        }
    }
}

/// The extractor for a (lower-cased) extension.
pub open spec fn kind_for(ext: Seq<char>) -> Option<ExtractorKind> {
    if ext == "txt"@ || ext == "md"@ || ext == "csv"@ || ext == "json"@ || ext == "xml"@ || ext
        == "html"@ || ext == "htm"@ {
        Some(ExtractorKind::Text)
    } else if ext == "docx"@ {
        Some(ExtractorKind::Docx)
    } else if ext == "pptx"@ {
        Some(ExtractorKind::Pptx)
    } else if ext == "xlsx"@ {
        Some(ExtractorKind::Xlsx)
    } else if ext == "pdf"@ {
        Some(ExtractorKind::Pdf)
    } else if ext == "doc"@ || ext == "ppt"@ || ext == "xls"@ {
        Some(ExtractorKind::Tika)
    } else {
        None
    }
}

/// `Path::file_stem` of a file name: the name up to its last `.`, unless
/// that dot starts the name.
pub open spec fn name_stem(name: Seq<char>) -> Seq<char> {
    let d = last_index_of(name, '.');
    if d <= 0 {
        name
    } else {
        name.subrange(0, d)
    }
}

/// `Path::file_stem` of a path.
pub open spec fn file_stem(style: PathStyle, path: Seq<char>) -> Option<Seq<char>> {
    match file_name(style, path) {
        Some(n) => Some(name_stem(n)),
        None => None,
    }
}

/// The document made of `content`, titled by the file stem.
pub open spec fn doc_of(style: PathStyle, path: Seq<char>, content: Seq<char>) -> DocView {
    DocView { title: file_stem(style, path), content, author: None }
}

// ---------------------------------------------------------------------------
// Archives

/// The number of entries of the zip archive in `bytes`, or the message of
/// the error that stopped reading its directory.
pub uninterp spec fn zip_count(bytes: Seq<u8>) -> Result<usize, Seq<char>>;

/// The name of entry `i` of the archive in `bytes`, or the error message.
pub uninterp spec fn zip_name(bytes: Seq<u8>, i: usize) -> Result<Seq<char>, Seq<char>>;

/// The contents of the entry called `name` in the archive in `bytes`, or
/// the error: the first flag marks an archive without an entry of that
/// name, the second an error met while reading the entry's data.
pub uninterp spec fn zip_data(bytes: Seq<u8>, name: Seq<char>) -> Result<
    Seq<u8>,
    (bool, bool, Seq<char>),
>;

/// Opens the archive in `bytes` with `zip::ZipArchive::new` and returns its
/// `len()`. The contract claims only that the outcome is `zip_count(bytes)`,
/// an error as its `Display` text.
#[verifier::external_body]
fn zip_entry_count(bytes: &[u8]) -> (r: Result<usize, String>)
    ensures
        match r {
            Ok(n) => zip_count(bytes@) == Ok::<usize, Seq<char>>(n),
            Err(e) => zip_count(bytes@) == Err::<usize, Seq<char>>(e@),
        },
{
    zip::ZipArchive::new(std::io::Cursor::new(bytes)).map(|a| a.len()).map_err(|e| e.to_string())
}

/// Opens the archive in `bytes` and returns `by_index(i)?.name()`. The
/// contract claims only that the outcome is `zip_name(bytes, i)`.
#[verifier::external_body]
fn zip_entry_name(bytes: &[u8], i: usize) -> (r: Result<String, String>)
    ensures
        match r {
            Ok(n) => zip_name(bytes@, i) == Ok::<Seq<char>, Seq<char>>(n@),
            Err(e) => zip_name(bytes@, i) == Err::<Seq<char>, Seq<char>>(e@),
        },
{
    let mut a = zip::ZipArchive::new(std::io::Cursor::new(bytes)).map_err(|e| e.to_string())?;
    let f = a.by_index(i).map_err(|e| e.to_string())?;
    Ok(f.name().to_string())
}

/// Opens the archive in `bytes` and reads the whole entry `by_name(name)`.
/// The contract claims only that the outcome is `zip_data(bytes, name)`:
/// the first flag marks the `FileNotFound` error, the second an I/O error
/// while reading the entry (a damaged stream or a failed checksum), given
/// as the text `quick_xml::Error` shows for it, since that error reaches a
/// reader of the entry's XML.
#[verifier::external_body]
fn zip_entry_data(bytes: &[u8], name: &str) -> (r: Result<Vec<u8>, (bool, bool, String)>)
    ensures
        match r {
            Ok(d) => zip_data(bytes@, name@) == Ok::<Seq<u8>, (bool, bool, Seq<char>)>(d@),
            Err((nf, rd, e)) => zip_data(bytes@, name@) == Err::<Seq<u8>, (bool, bool, Seq<char>)>(
                (nf, rd, e@),
            ),
        },
{
    let mut a = zip::ZipArchive::new(std::io::Cursor::new(bytes)).map_err(|e| (false, false, e.to_string()))?;
    let mut f = match a.by_name(name) {
        Ok(f) => f,
        Err(e @ zip::result::ZipError::FileNotFound) => return Err((true, false, e.to_string())),
        Err(e) => return Err((false, false, e.to_string())),
    };
    let mut buf = Vec::new();
    f.read_to_end(&mut buf).map_err(|e| (false, true, quick_xml::Error::from(e).to_string()))?;
    Ok(buf)
}

/// The names of the first `k` entries, or the first error.
pub open spec fn names_upto(bytes: Seq<u8>, k: nat) -> Result<Seq<Seq<char>>, Seq<char>>
    decreases k,
{
    if k == 0 {
        Ok(Seq::empty())
    } else {
        match names_upto(bytes, (k - 1) as nat) {
            Err(e) => Err(e),
            Ok(ns) => match zip_name(bytes, (k - 1) as usize) {
                Ok(n) => Ok(ns.push(n)),
                Err(e) => Err(e),
            },
        }
    }
}

/// The entry names of the archive in `bytes`, in directory order.
pub open spec fn archive_names_spec(bytes: Seq<u8>) -> Result<Seq<Seq<char>>, Seq<char>> {
    match zip_count(bytes) {
        Err(e) => Err(e),
        Ok(n) => names_upto(bytes, n as nat),
    }
}

/// The entry names of the archive in `bytes`.
pub fn archive_names(bytes: &[u8]) -> (r: Result<Vec<String>, String>)
    ensures
        match r {
            Ok(v) => archive_names_spec(bytes@) == Ok::<Seq<Seq<char>>, Seq<char>>(strs(v@)),
            Err(e) => archive_names_spec(bytes@) == Err::<Seq<Seq<char>>, Seq<char>>(e@),
        },
{
    let n = zip_entry_count(bytes)?;
    let mut names: Vec<String> = Vec::new();
    let mut i: usize = 0;
    assert(strs(names@) =~= Seq::<Seq<char>>::empty());
    while i < n
        invariant
            i <= n,
            zip_count(bytes@) == Ok::<usize, Seq<char>>(n),
            names_upto(bytes@, i as nat) == Ok::<Seq<Seq<char>>, Seq<char>>(strs(names@)),
        decreases n - i,
    {
        let name = match zip_entry_name(bytes, i) {
            Ok(s) => s,
            Err(e) => {
                proof {
                    lemma_names_err(bytes@, (i + 1) as nat, n as nat);
                }
                return Err(e);
            },
        };
        let ghost before = names@;
        names.push(name);
        assert(strs(names@) =~= strs(before).push(name@));
        i = i + 1;
    }
    Ok(names)
}

pub proof fn lemma_names_err(bytes: Seq<u8>, k: nat, n: nat)
    requires
        1 <= k <= n,
        names_upto(bytes, k) is Err,
    ensures
        names_upto(bytes, n) == names_upto(bytes, k),
    decreases n - k,
{
    if k < n {
        lemma_names_err(bytes, k + 1, n);
    }
}

// ---------------------------------------------------------------------------
// Choosing parts

/// The names with the given prefix and suffix, in their order.
pub open spec fn select_parts(names: Seq<Seq<char>>, pre: Seq<char>, suf: Seq<char>) -> Seq<
    Seq<char>,
>
    decreases names.len(),
{
    if names.len() == 0 {
        names
    } else {
        let r = select_parts(names.drop_last(), pre, suf);
        if has_prefix(names.last(), pre) && has_suffix(names.last(), suf) {
            r.push(names.last())
        } else {
            r
        }
    }
}

/// `parts` are the names with the prefix and suffix, in `String` order.
pub open spec fn sorted_selection(
    parts: Seq<Seq<char>>,
    names: Seq<Seq<char>>,
    pre: Seq<char>,
    suf: Seq<char>,
) -> bool {
    sorted_lex(parts) && parts.to_multiset() == select_parts(names, pre, suf).to_multiset()
}

/// `p` is a suffix of `t`.
fn ends_with(t: &Vec<char>, p: &Vec<char>) -> (b: bool)
    ensures
        b == has_suffix(t@, p@),
{
    if p.len() > t.len() {
        return false;
    }
    let off = t.len() - p.len();
    let tail = slice_chars(t, off, t.len());
    chars_eq(&tail, p)
}

/// The names that start with `pre` and end with `suf`, in `String` order.
pub fn sorted_parts(names: &Vec<String>, pre: &str, suf: &str) -> (r: Vec<String>)
    ensures
        sorted_selection(strs(r@), strs(names@), pre@, suf@),
{
    let ghost nv = strs(names@);
    let p = chars_of(pre);
    let s = chars_of(suf);
    let mut sel: Vec<Vec<char>> = Vec::new();
    let mut i: usize = 0;
    while i < names.len()
        invariant
            i <= names.len(),
            nv == strs(names@),
            p@ == pre@,
            s@ == suf@,
            sel@.map_values(|w: Vec<char>| w@) == select_parts(nv.take(i as int), pre@, suf@),
        decreases names.len() - i,
    {
        assert(nv.take(i + 1).drop_last() =~= nv.take(i as int));
        assert(nv.take(i + 1).last() == names@[i as int]@);
        let c = chars_of(names[i].as_str());
        if starts_with(&c, &p) && ends_with(&c, &s) {
            let ghost before = sel@.map_values(|w: Vec<char>| w@);
            sel.push(c);
            assert(sel@.map_values(|w: Vec<char>| w@) =~= before.push(names@[i as int]@));
        }
        i = i + 1;
    }
    assert(nv.take(names.len() as int) =~= nv);
    let sorted = sort_lex(sel);
    let mut out: Vec<String> = Vec::new();
    let ghost sv = sorted@.map_values(|w: Vec<char>| w@);
    let mut j: usize = 0;
    while j < sorted.len()
        invariant
            j <= sorted.len(),
            sv == sorted@.map_values(|w: Vec<char>| w@),
            strs(out@) == sv.take(j as int),
        decreases sorted.len() - j,
    {
        let ghost before = out@;
        out.push(string_of(sorted[j].as_slice()));
        assert(strs(out@) =~= strs(before).push(sv[j as int]));
        assert(sv.take(j + 1) =~= sv.take(j as int).push(sv[j as int]));
        j = j + 1;
    }
    assert(sv.take(sorted.len() as int) =~= sv);
    out
}

/// The slide number in a name `ppt/slides/slideN.xml`, where `N` is a `u32`.
pub open spec fn slide_number_spec(name: Seq<char>) -> Option<nat> {
    let pre = "ppt/slides/slide"@;
    let suf = ".xml"@;
    if !has_prefix(name, pre) {
        None
    } else {
        let rest = name.subrange(pre.len() as int, name.len() as int);
        if !has_suffix(rest, suf) {
            None
        } else {
            parse_uint(rest.subrange(0, rest.len() - suf.len()), u32::MAX as nat)
        }
    }
}

/// The number of a slide part `ppt/slides/slideN.xml`.
pub fn slide_number(name: &str) -> (r: Option<u32>)
    ensures
        match r {
            Some(n) => slide_number_spec(name@) == Some(n as nat),
            None => slide_number_spec(name@) is None,
        },
{
    let v = chars_of(name);
    let pre = chars_of("ppt/slides/slide");
    let suf = chars_of(".xml");
    if !starts_with(&v, &pre) {
        return None;
    }
    let rest = slice_chars(&v, pre.len(), v.len());
    if !ends_with(&rest, &suf) {
        return None;
    }
    let digits = slice_chars(&rest, 0, rest.len() - suf.len());
    match parse_unsigned(&digits, u32::MAX as u64) {
        Some(n) => Some(n as u32),
        None => None,
    }
}

/// The (slide number, position) of every slide part among `names`.
pub open spec fn slide_candidates(names: Seq<Seq<char>>) -> Seq<(u32, usize)>
    decreases names.len(),
{
    if names.len() == 0 {
        Seq::empty()
    } else {
        let r = slide_candidates(names.drop_last());
        match slide_number_spec(names.last()) {
            Some(n) => r.push((n as u32, (names.len() - 1) as usize)),
            None => r,
        }
    }
}

pub proof fn lemma_slide_candidates(names: Seq<Seq<char>>)
    requires
        names.len() <= usize::MAX,
    ensures
        forall|k: int|
            0 <= k < slide_candidates(names).len() ==> 0 <= #[trigger] slide_candidates(names)[k].1
                < names.len() && slide_number_spec(names[slide_candidates(names)[k].1 as int])
                == Some(slide_candidates(names)[k].0 as nat),
        forall|a: int, b: int|
            0 <= a < b < slide_candidates(names).len() ==> slide_candidates(names)[a].1
                < slide_candidates(names)[b].1,
    decreases names.len(),
{
    if names.len() > 0 {
        lemma_slide_candidates(names.drop_last());
        let r = slide_candidates(names.drop_last());
        assert forall|k: int| 0 <= k < r.len() implies names[r[k].1 as int] == names.drop_last()[r[k].1 as int] by {}
        let s = slide_candidates(names);
        match slide_number_spec(names.last()) {
            Some(n) => {
                assert(s == r.push((n as u32, (names.len() - 1) as usize)));
                assert forall|k: int| 0 <= k < s.len() implies 0 <= #[trigger] s[k].1 < names.len()
                    && slide_number_spec(names[s[k].1 as int]) == Some(s[k].0 as nat) by {
                    if k < r.len() {
                        assert(s[k] == r[k]);
                    }
                }
                assert forall|a: int, b: int| 0 <= a < b < s.len() implies s[a].1 < s[b].1 by {
                    assert(s[a] == r[a]);
                    if b < r.len() {
                        assert(s[b] == r[b]);
                    }
                }
            },
            None => {},
        }
    }
}

/// `parts` are the slide parts of `names`, by slide number, parts with equal
/// numbers in archive order.
pub open spec fn slide_order(parts: Seq<Seq<char>>, names: Seq<Seq<char>>) -> bool {
    exists|order: Seq<(u32, usize)>|
        {
            &&& #[trigger] sorted_pairs(order)
            &&& order.to_multiset() == slide_candidates(names).to_multiset()
            &&& parts.len() == order.len()
            &&& forall|k: int|
                0 <= k < parts.len() ==> parts[k] == names[#[trigger] order[k].1 as int]
        }
}

/// The slide parts of `names` in slide order.
pub fn slide_parts(names: &Vec<String>) -> (r: Vec<String>)
    ensures
        slide_order(strs(r@), strs(names@)),
{
    let ghost nv = strs(names@);
    let mut cands: Vec<(u32, usize)> = Vec::new();
    let mut i: usize = 0;
    while i < names.len()
        invariant
            i <= names.len(),
            nv == strs(names@),
            cands@ == slide_candidates(nv.take(i as int)),
        decreases names.len() - i,
    {
        assert(nv.take(i + 1).drop_last() =~= nv.take(i as int));
        assert(nv.take(i + 1).last() == names@[i as int]@);
        match slide_number(names[i].as_str()) {
            Some(n) => {
                cands.push((n, i));
            },
            None => {},
        }
        i = i + 1;
    }
    assert(nv.take(names.len() as int) =~= nv);
    proof {
        lemma_slide_candidates(nv);
    }
    let order = sort_pairs(cands);
    proof {
        assert forall|k: int| 0 <= k < order.len() implies #[trigger] order@[k].1 < names.len() by {
            assert(order@.to_multiset().count(order@[k]) > 0);
            assert(slide_candidates(nv).to_multiset().count(order@[k]) > 0);
            assert(slide_candidates(nv).contains(order@[k]));
        }
    }
    let mut out: Vec<String> = Vec::new();
    let mut j: usize = 0;
    while j < order.len()
        invariant
            j <= order.len(),
            nv == strs(names@),
            order@.to_multiset() == slide_candidates(nv).to_multiset(),
            forall|k: int| 0 <= k < order.len() ==> #[trigger] order@[k].1 < names.len(),
            strs(out@).len() == j,
            forall|k: int| 0 <= k < j ==> strs(out@)[k] == nv[#[trigger] order@[k].1 as int],
        decreases order.len() - j,
    {
        let idx = order[j].1;
        let ghost before = out@;
        out.push(names[idx].clone());
        assert(strs(out@) =~= strs(before).push(nv[idx as int]));
        j = j + 1;
    }
    assert(slide_order(strs(out@), nv)) by {
        assert(order@.to_multiset() == order@.to_multiset());
    }
    out
}

// ---------------------------------------------------------------------------
// Assembling content

/// The text of the word-processing parts `parts`, each followed by a line
/// break; a part that is missing or holds no words adds nothing.
pub open spec fn docx_content(bytes: Seq<u8>, parts: Seq<Seq<char>>) -> Result<Seq<char>, Seq<char>>
    decreases parts.len(),
{
    if parts.len() == 0 {
        Ok(Seq::empty())
    } else {
        match docx_content(bytes, parts.drop_last()) {
            Err(e) => Err(e),
            Ok(c) => {
                let p = parts.last();
                match zip_data(bytes, p) {
                    Err((not_found, reading, e)) => if not_found {
                        Ok(c)
                    } else if reading {
                        Err(xml_error(p, e))
                    } else {
                        Err(e)
                    },
                    Ok(data) => match part_text_spec(p, data) {
                        Err(e) => Err(e),
                        Ok(None) => Ok(c),
                        Ok(Some(t)) => Ok(c + t + seq!['\n']),
                    },
                }
            },
        }
    }
}

/// The text of the slides `parts`, each non-empty one followed by a line
/// break; a missing slide is an error.
pub open spec fn pptx_content(bytes: Seq<u8>, parts: Seq<Seq<char>>) -> Result<Seq<char>, Seq<char>>
    decreases parts.len(),
{
    if parts.len() == 0 {
        Ok(Seq::empty())
    } else {
        match pptx_content(bytes, parts.drop_last()) {
            Err(e) => Err(e),
            Ok(c) => {
                let p = parts.last();
                match zip_data(bytes, p) {
                    Err((_, reading, e)) => if reading {
                        Err(xml_error(p, e))
                    } else {
                        Err(e)
                    },
                    Ok(data) => match slide_text_spec(p, data) {
                        Err(e) => Err(e),
                        Ok(t) => if t.len() == 0 {
                            Ok(c)
                        } else {
                            Ok(c + t + seq!['\n'])
                        },
                    },
                }
            },
        }
    }
}

/// The text of the worksheets `parts`, each non-empty one followed by a
/// line break; a missing sheet is an error.
pub open spec fn xlsx_content(bytes: Seq<u8>, parts: Seq<Seq<char>>, shared: Seq<Seq<char>>) -> Result<
    Seq<char>,
    Seq<char>,
>
    decreases parts.len(),
{
    if parts.len() == 0 {
        Ok(Seq::empty())
    } else {
        match xlsx_content(bytes, parts.drop_last(), shared) {
            Err(e) => Err(e),
            Ok(c) => {
                let p = parts.last();
                match zip_data(bytes, p) {
                    Err((_, reading, e)) => if reading {
                        Err("sheet parse error in "@ + p + ": "@ + e)
                    } else {
                        Err(e)
                    },
                    Ok(data) => match sheet_text_spec(p, data, shared) {
                        Err(e) => Err(e),
                        Ok(t) => if t.len() == 0 {
                            Ok(c)
                        } else {
                            Ok(c + t + seq!['\n'])
                        },
                    },
                }
            },
        }
    }
}

/// The workbook's shared strings: none when the archive has no
/// `xl/sharedStrings.xml`.
pub open spec fn workbook_strings(bytes: Seq<u8>) -> Result<Seq<Seq<char>>, Seq<char>> {
    match zip_data(bytes, "xl/sharedStrings.xml"@) {
        Err((not_found, reading, e)) => if not_found {
            Ok(Seq::empty())
        } else if reading {
            Err("sharedStrings parse error: "@ + e)
        } else {
            Err(e)
        },
        Ok(data) => shared_strings_spec(data),
    }
}

/// `r` as a result over character sequences.
pub open spec fn res_view(r: Result<String, String>) -> Result<Seq<char>, Seq<char>> {
    match r {
        Ok(s) => Ok(s@),
        Err(e) => Err(e@),
    }
}

/// The text of the word-processing parts `parts` of the archive in `bytes`.
pub fn docx_text(bytes: &[u8], parts: &Vec<String>) -> (r: Result<String, String>)
    ensures
        res_view(r) == docx_content(bytes@, strs(parts@)),
{
    let ghost pv = strs(parts@);
    let mut content: Vec<char> = Vec::new();
    let mut i: usize = 0;
    while i < parts.len()
        invariant
            i <= parts.len(),
            pv == strs(parts@),
            docx_content(bytes@, pv.take(i as int)) == Ok::<Seq<char>, Seq<char>>(content@),
        decreases parts.len() - i,
    {
        assert(pv.take(i + 1).drop_last() =~= pv.take(i as int));
        assert(pv.take(i + 1).last() == parts@[i as int]@);
        let part = parts[i].as_str();
        match zip_entry_data(bytes, part) {
            Err((not_found, reading, e)) => {
                if !not_found {
                    proof {
                        lemma_docx_err(bytes@, pv, (i + 1) as int);
                    }
                    if reading {
                        return Err(error_message("xml parse error in ", part, &e));
                    }
                    return Err(e);
                }
            },
            Ok(data) => {
                match part_text(part, data.as_slice()) {
                    Err(e) => {
                        proof {
                            lemma_docx_err(bytes@, pv, (i + 1) as int);
                        }
                        return Err(e);
                    },
                    Ok(None) => {},
                    Ok(Some(t)) => {
                        let tc = chars_of(t.as_str());
                        let ghost before = content@;
                        append_chars(&mut content, &tc);
                        content.push('\n');
                        assert(content@ =~= before + t@ + seq!['\n']);
                    },
                }
            },
        }
        i = i + 1;
    }
    assert(pv.take(parts.len() as int) =~= pv);
    Ok(string_of(content.as_slice()))
}

pub proof fn lemma_docx_err(bytes: Seq<u8>, parts: Seq<Seq<char>>, k: int)
    requires
        1 <= k <= parts.len(),
        docx_content(bytes, parts.take(k)) is Err,
    ensures
        docx_content(bytes, parts) == docx_content(bytes, parts.take(k)),
    decreases parts.len() - k,
{
    if k < parts.len() {
        assert(parts.take(k + 1).drop_last() =~= parts.take(k));
        lemma_docx_err(bytes, parts, k + 1);
    } else {
        assert(parts.take(k) =~= parts);
    }
}

pub proof fn lemma_pptx_err(bytes: Seq<u8>, parts: Seq<Seq<char>>, k: int)
    requires
        1 <= k <= parts.len(),
        pptx_content(bytes, parts.take(k)) is Err,
    ensures
        pptx_content(bytes, parts) == pptx_content(bytes, parts.take(k)),
    decreases parts.len() - k,
{
    if k < parts.len() {
        assert(parts.take(k + 1).drop_last() =~= parts.take(k));
        lemma_pptx_err(bytes, parts, k + 1);
    } else {
        assert(parts.take(k) =~= parts);
    }
}

pub proof fn lemma_xlsx_err(bytes: Seq<u8>, parts: Seq<Seq<char>>, shared: Seq<Seq<char>>, k: int)
    requires
        1 <= k <= parts.len(),
        xlsx_content(bytes, parts.take(k), shared) is Err,
    ensures
        xlsx_content(bytes, parts, shared) == xlsx_content(bytes, parts.take(k), shared),
    decreases parts.len() - k,
{
    if k < parts.len() {
        assert(parts.take(k + 1).drop_last() =~= parts.take(k));
        lemma_xlsx_err(bytes, parts, shared, k + 1);
    } else {
        assert(parts.take(k) =~= parts);
    }
}

/// The text of the slides `parts` of the archive in `bytes`.
pub fn pptx_text(bytes: &[u8], parts: &Vec<String>) -> (r: Result<String, String>)
    ensures
        res_view(r) == pptx_content(bytes@, strs(parts@)),
{
    let ghost pv = strs(parts@);
    let mut content: Vec<char> = Vec::new();
    let mut i: usize = 0;
    while i < parts.len()
        invariant
            i <= parts.len(),
            pv == strs(parts@),
            pptx_content(bytes@, pv.take(i as int)) == Ok::<Seq<char>, Seq<char>>(content@),
        decreases parts.len() - i,
    {
        assert(pv.take(i + 1).drop_last() =~= pv.take(i as int));
        assert(pv.take(i + 1).last() == parts@[i as int]@);
        let part = parts[i].as_str();
        match zip_entry_data(bytes, part) {
            Err((_, reading, e)) => {
                proof {
                    lemma_pptx_err(bytes@, pv, (i + 1) as int);
                }
                if reading {
                    return Err(error_message("xml parse error in ", part, &e));
                }
                return Err(e);
            },
            Ok(data) => {
                match slide_text(part, data.as_slice()) {
                    Err(e) => {
                        proof {
                            lemma_pptx_err(bytes@, pv, (i + 1) as int);
                        }
                        return Err(e);
                    },
                    Ok(t) => {
                        let tc = chars_of(t.as_str());
                        let ghost before = content@;
                        if tc.len() > 0 {
                            append_chars(&mut content, &tc);
                            content.push('\n');
                            assert(content@ =~= before + t@ + seq!['\n']);
                        }
                    },
                }
            },
        }
        i = i + 1;
    }
    assert(pv.take(parts.len() as int) =~= pv);
    Ok(string_of(content.as_slice()))
}

/// The shared strings of the workbook in `bytes`.
pub fn workbook_shared_strings(bytes: &[u8]) -> (r: Result<Vec<String>, String>)
    ensures
        match r {
            Ok(v) => workbook_strings(bytes@) == Ok::<Seq<Seq<char>>, Seq<char>>(strs(v@)),
            Err(e) => workbook_strings(bytes@) == Err::<Seq<Seq<char>>, Seq<char>>(e@),
        },
{
    match zip_entry_data(bytes, "xl/sharedStrings.xml") {
        Err((not_found, reading, e)) => {
            if not_found {
                let v: Vec<String> = Vec::new();
                assert(strs(v@) =~= Seq::<Seq<char>>::empty());
                Ok(v)
            } else if reading {
                let mut m = chars_of("sharedStrings parse error: ");
                let ec = chars_of(e.as_str());
                append_chars(&mut m, &ec);
                Err(string_of(m.as_slice()))
            } else {
                Err(e)
            }
        },
        Ok(data) => shared_strings(data.as_slice()),
    }
}

/// The text of the worksheets `parts` of the archive in `bytes`.
pub fn xlsx_text(bytes: &[u8], parts: &Vec<String>, shared: &Vec<String>) -> (r: Result<
    String,
    String,
>)
    ensures
        res_view(r) == xlsx_content(bytes@, strs(parts@), strs(shared@)),
{
    let ghost pv = strs(parts@);
    let ghost sv = strs(shared@);
    let mut content: Vec<char> = Vec::new();
    let mut i: usize = 0;
    while i < parts.len()
        invariant
            i <= parts.len(),
            pv == strs(parts@),
            sv == strs(shared@),
            xlsx_content(bytes@, pv.take(i as int), sv) == Ok::<Seq<char>, Seq<char>>(content@),
        decreases parts.len() - i,
    {
        assert(pv.take(i + 1).drop_last() =~= pv.take(i as int));
        assert(pv.take(i + 1).last() == parts@[i as int]@);
        let part = parts[i].as_str();
        match zip_entry_data(bytes, part) {
            Err((_, reading, e)) => {
                proof {
                    lemma_xlsx_err(bytes@, pv, sv, (i + 1) as int);
                }
                if reading {
                    return Err(error_message("sheet parse error in ", part, &e));
                }
                return Err(e);
            },
            Ok(data) => {
                match sheet_text(part, data.as_slice(), shared) {
                    Err(e) => {
                        proof {
                            lemma_xlsx_err(bytes@, pv, sv, (i + 1) as int);
                        }
                        return Err(e);
                    },
                    Ok(t) => {
                        let tc = chars_of(t.as_str());
                        let ghost before = content@;
                        if tc.len() > 0 {
                            append_chars(&mut content, &tc);
                            content.push('\n');
                            assert(content@ =~= before + t@ + seq!['\n']);
                        }
                    },
                }
            },
        }
        i = i + 1;
    }
    assert(pv.take(parts.len() as int) =~= pv);
    Ok(string_of(content.as_slice()))
}

// ---------------------------------------------------------------------------
// Plain text

/// The bytes begin with a byte order mark (UTF-8, UTF-16LE or UTF-16BE).
pub open spec fn has_bom(b: Seq<u8>) -> bool {
    ||| (b.len() >= 3 && b[0] == 0xefu8 && b[1] == 0xbbu8 && b[2] == 0xbfu8)
    ||| (b.len() >= 2 && b[0] == 0xffu8 && b[1] == 0xfeu8)
    ||| (b.len() >= 2 && b[0] == 0xfeu8 && b[1] == 0xffu8)
}

/// What `encoding_rs::UTF_8.decode` returns for `bytes`: the text (the byte
/// order mark removed, the encoding it names used, malformed sequences
/// replaced) and whether any sequence was malformed.
pub uninterp spec fn utf8_decode_result(bytes: Seq<u8>) -> (Seq<char>, bool);

/// What `String::from_utf8_lossy` returns for `bytes`.
pub uninterp spec fn utf8_lossy(bytes: Seq<u8>) -> Seq<char>;

/// `encoding_rs::UTF_8.decode(bytes)`, keeping the text and the error flag.
/// The contract names the outcome and states what its documentation and
/// source give for input without a byte order mark: valid UTF-8 decodes to
/// its characters, without errors.
#[verifier::external_body]
fn decode_utf8_with_bom(bytes: &[u8]) -> (r: (String, bool))
    ensures
        (r.0@, r.1) == utf8_decode_result(bytes@),
        valid_utf8(bytes@) && !has_bom(bytes@) ==> r.0@ == decode_utf8(bytes@) && !r.1,
{
    let (text, _, had_errors) = encoding_rs::UTF_8.decode(bytes);
    (text.into_owned(), had_errors)
}

/// `String::from_utf8_lossy(bytes)`. The contract names the outcome and
/// states what the documentation gives: valid UTF-8 is returned as it is.
#[verifier::external_body]
fn lossy_utf8(bytes: &[u8]) -> (r: String)
    ensures
        r@ == utf8_lossy(bytes@),
        valid_utf8(bytes@) ==> r@ == decode_utf8(bytes@),
{
    String::from_utf8_lossy(bytes).into_owned()
}

/// What `decode_text` returns: valid UTF-8 without a byte order mark is its
/// own text; other bytes go through the decoder, and through the lossy
/// reading when the decoder met malformed input.
pub open spec fn decoded_text(bytes: Seq<u8>) -> Seq<char> {
    let (t, had_errors) = utf8_decode_result(bytes);
    if valid_utf8(bytes) && !has_bom(bytes) {
        decode_utf8(bytes)
    } else if had_errors {
        utf8_lossy(bytes)
    } else {
        t
    }
}

/// The text of a plain-text file: decoded as UTF-8 (honouring a byte order
/// mark), falling back to a lossy UTF-8 reading when malformed.
pub fn decode_text(bytes: &[u8]) -> (r: String)
    ensures
        r@ == decoded_text(bytes@),
        valid_utf8(bytes@) && !has_bom(bytes@) ==> r@ == decode_utf8(bytes@),
{
    let (text, had_errors) = decode_utf8_with_bom(bytes);
    if had_errors {
        lossy_utf8(bytes)
    } else {
        text
    }
}

/// The largest plain-text file that is read, in bytes.
pub const MAX_TEXT_SIZE: u64 = 20971520;

/// The largest PDF file that is read, in bytes.
pub const MAX_PDF_SIZE: u64 = 209715200;

/// A plain-text file of `len` bytes is small enough to read.
pub fn text_size_allowed(len: u64) -> (b: bool)
    ensures
        b == (len <= 20 * 1024 * 1024),
{
    len <= MAX_TEXT_SIZE
}

/// A PDF file of `len` bytes is small enough to read.
pub fn pdf_size_allowed(len: u64) -> (b: bool)
    ensures
        b == (len <= 200 * 1024 * 1024),
{
    len <= MAX_PDF_SIZE
}

// ---------------------------------------------------------------------------
// Whole documents

/// A document result as character sequences.
pub open spec fn doc_res_view(r: Result<ExtractedDocument, String>) -> Result<DocView, Seq<char>> {
    match r {
        Ok(d) => Ok(d@),
        Err(e) => Err(e@),
    }
}

/// The document made of `content`, or the error.
pub open spec fn with_content(style: PathStyle, path: Seq<char>, c: Result<Seq<char>, Seq<char>>) -> Result<
    DocView,
    Seq<char>,
> {
    match c {
        Ok(c) => Ok(doc_of(style, path, c)),
        Err(e) => Err(e),
    }
}

/// `res` is what extracting the `.docx` archive `bytes` at `path` gives:
/// the `word/*.xml` parts in name order, each part's words on a line.
pub open spec fn docx_result(style: PathStyle, path: Seq<char>, bytes: Seq<u8>, res: Result<DocView, Seq<char>>) -> bool {
    match archive_names_spec(bytes) {
        Err(e) => res == Err::<DocView, Seq<char>>(e),
        Ok(names) => exists|parts: Seq<Seq<char>>|
            #[trigger] sorted_selection(parts, names, "word/"@, ".xml"@) && res == with_content(
                style,
                path,
                docx_content(bytes, parts),
            ),
    }
}

/// `res` is what extracting the `.pptx` archive `bytes` at `path` gives:
/// the slides in slide order, each slide's words on a line.
pub open spec fn pptx_result(style: PathStyle, path: Seq<char>, bytes: Seq<u8>, res: Result<DocView, Seq<char>>) -> bool {
    match archive_names_spec(bytes) {
        Err(e) => res == Err::<DocView, Seq<char>>(e),
        Ok(names) => exists|parts: Seq<Seq<char>>|
            #[trigger] slide_order(parts, names) && res == with_content(
                style,
                path,
                pptx_content(bytes, parts),
            ),
    }
}

/// `res` is what extracting the `.xlsx` archive `bytes` at `path` gives:
/// the shared strings are read first, then the `xl/worksheets/*.xml` parts
/// in name order,
/// each sheet's cells on a line.
pub open spec fn xlsx_result(style: PathStyle, path: Seq<char>, bytes: Seq<u8>, res: Result<DocView, Seq<char>>) -> bool {
    match workbook_strings(bytes) {
        Err(e) => res == Err::<DocView, Seq<char>>(e),
        Ok(shared) => match archive_names_spec(bytes) {
            Err(e) => res == Err::<DocView, Seq<char>>(e),
            Ok(names) => exists|parts: Seq<Seq<char>>|
                #[trigger] sorted_selection(parts, names, "xl/worksheets/"@, ".xml"@) && res
                    == with_content(style, path, xlsx_content(bytes, parts, shared)),
        },
    }
}

/// `Path::file_stem` as a `String`.
fn stem_of(style: PathStyle, path: &str) -> (r: Option<String>)
    ensures
        opt_view(r) == file_stem(style, path@),
{
    let v = chars_of(path);
    match crate::paths::file_name_chars(&v, style) {
        None => None,
        Some(n) => {
            proof {
                crate::paths::lemma_last_index_of(n@, '.');
            }
            assert(n@.take(n.len() as int) =~= n@);
            match crate::paths::find_last(&n, n.len(), '.') {
                Some(d) => {
                    if d == 0 {
                        Some(string_of(n.as_slice()))
                    } else {
                        let s = slice_chars(&n, 0, d);
                        Some(string_of(s.as_slice()))
                    }
                },
                None => Some(string_of(n.as_slice())),
            }
        },
    }
}

/// The document for `path` with the given content.
fn document(style: PathStyle, path: &str, content: String) -> (d: ExtractedDocument)
    ensures
        d@ == doc_of(style, path@, content@),
{
    ExtractedDocument { title: stem_of(style, path), content, author: None }
}

/// Extracts the text of a `.docx` archive.
pub fn extract_docx(style: PathStyle, path: &str, bytes: &[u8]) -> (r: Result<ExtractedDocument, String>)
    ensures
        docx_result(style, path@, bytes@, doc_res_view(r)),
{
    let names = archive_names(bytes)?;
    let parts = sorted_parts(&names, "word/", ".xml");
    let r = match docx_text(bytes, &parts) {
        Ok(c) => Ok(document(style, path, c)),
        Err(e) => Err(e),
    };
    proof {
        let w = strs(parts@);
        match archive_names_spec(bytes@) {
            Ok(ns) => {
                assert(ns == strs(names@));
                assert(sorted_selection(w, ns, "word/"@, ".xml"@));
            },
            Err(_) => {},
        }
    }
    r
}

/// Extracts the text of a `.pptx` archive.
pub fn extract_pptx(style: PathStyle, path: &str, bytes: &[u8]) -> (r: Result<ExtractedDocument, String>)
    ensures
        pptx_result(style, path@, bytes@, doc_res_view(r)),
{
    let names = archive_names(bytes)?;
    let parts = slide_parts(&names);
    let r = match pptx_text(bytes, &parts) {
        Ok(c) => Ok(document(style, path, c)),
        Err(e) => Err(e),
    };
    proof {
        let w = strs(parts@);
        match archive_names_spec(bytes@) {
            Ok(ns) => {
                assert(ns == strs(names@));
                assert(slide_order(w, ns));
            },
            Err(_) => {},
        }
    }
    r
}

/// Extracts the text of a `.xlsx` archive.
pub fn extract_xlsx(style: PathStyle, path: &str, bytes: &[u8]) -> (r: Result<ExtractedDocument, String>)
    ensures
        xlsx_result(style, path@, bytes@, doc_res_view(r)),
{
    let shared = workbook_shared_strings(bytes)?;
    let names = archive_names(bytes)?;
    let parts = sorted_parts(&names, "xl/worksheets/", ".xml");
    let r = match xlsx_text(bytes, &parts, &shared) {
        Ok(c) => Ok(document(style, path, c)),
        Err(e) => Err(e),
    };
    proof {
        let w = strs(parts@);
        match workbook_strings(bytes@) {
            Ok(ss) => {
                assert(ss == strs(shared@));
                match archive_names_spec(bytes@) {
                    Ok(ns) => {
                        assert(ns == strs(names@));
                        assert(sorted_selection(w, ns, "xl/worksheets/"@, ".xml"@));
                    },
                    Err(_) => {},
                }
            },
            Err(_) => {},
        }
    }
    r
}

/// `v` holds the characters of the literal `s`.
fn is_lit(v: &Vec<char>, s: &str) -> (r: bool)
    ensures
        r == (v@ == s@),
{
    let l = chars_of(s);
    chars_eq(v, &l)
}

/// The extractor for a lower-cased extension, if any handles it.
pub fn extractor_for(ext: &str) -> (r: Option<ExtractorKind>)
    ensures
        r == kind_for(ext@),
{
    let v = chars_of(ext);
    if is_lit(&v, "txt") || is_lit(&v, "md") || is_lit(&v, "csv") || is_lit(&v, "json") || is_lit(
        &v,
        "xml",
    ) || is_lit(&v, "html") || is_lit(&v, "htm") {
        Some(ExtractorKind::Text)
    } else if is_lit(&v, "docx") {
        Some(ExtractorKind::Docx)
    } else if is_lit(&v, "pptx") {
        Some(ExtractorKind::Pptx)
    } else if is_lit(&v, "xlsx") {
        Some(ExtractorKind::Xlsx)
    } else if is_lit(&v, "pdf") {
        Some(ExtractorKind::Pdf)
    } else if is_lit(&v, "doc") || is_lit(&v, "ppt") || is_lit(&v, "xls") {
        Some(ExtractorKind::Tika)
    } else {
        None
    }
}

/// The input suits the extractor: bytes for plain text and Office
/// archives, text for PDF and Tika, a failure for any, and an unreachable
/// server for Tika alone.
pub open spec fn input_fits(kind: ExtractorKind, data: SourceData) -> bool {
    match data {
        SourceData::Failure(_) => true,
        SourceData::Unreachable(_) => kind == ExtractorKind::Tika,
        SourceData::Bytes(_) => kind == ExtractorKind::Text || kind == ExtractorKind::Docx || kind
            == ExtractorKind::Pptx || kind == ExtractorKind::Xlsx,
        SourceData::Text(_) => kind == ExtractorKind::Pdf || kind == ExtractorKind::Tika,
    }
}

/// `res` is what the extractor `kind` gives for the file at `path` read as
/// `data`.
pub open spec fn kind_result(
    style: PathStyle,
    kind: ExtractorKind,
    path: Seq<char>,
    data: SourceData,
    res: Result<DocView, Seq<char>>,
) -> bool {
    match data {
        SourceData::Failure(e) => res == Err::<DocView, Seq<char>>(e@),
        SourceData::Unreachable(e) => res == Err::<DocView, Seq<char>>(e@),
        SourceData::Bytes(b) => match kind {
            ExtractorKind::Text => res == Ok::<DocView, Seq<char>>(
                doc_of(style, path, decoded_text(b@)),
            ),
            ExtractorKind::Docx => docx_result(style, path, b@, res),
            ExtractorKind::Pptx => pptx_result(style, path, b@, res),
            _ => xlsx_result(style, path, b@, res),
        },
        SourceData::Text(t) => match kind {
            ExtractorKind::Pdf => res == Ok::<DocView, Seq<char>>(doc_of(style, path, collapse_ws(t@))),
            _ => res == Ok::<DocView, Seq<char>>(doc_of(style, path, t@)),
        },
    }
}

/// The extraction reported for an extractor's result.
pub open spec fn finished(ext: Seq<char>, res: Result<DocView, Seq<char>>) -> ExtractionView {
    match res {
        Ok(d) => ExtractionView::Done(d),
        Err(e) => ExtractionView::Failed(ext + ": "@ + e),
    }
}

/// What extracting the file at `path` from `data` reports, under the path
/// rules of `style`: an extension that no extractor handles is skipped, and
/// so is a legacy Office file whose extraction server cannot be reached, so
/// that indexing goes on; an extractor's error is reported as a failure,
/// prefixed with the extension.
pub open spec fn extract_outcome(
    style: PathStyle,
    path: Seq<char>,
    data: SourceData,
    r: ExtractionView,
) -> bool {
    match kind_for(extension_spec(style, path)) {
        None => r == ExtractionView::Skipped("unsupported extension: "@ + extension_spec(style, path)),
        Some(k) => match data {
            SourceData::Unreachable(e) => r == ExtractionView::Skipped(
                extension_spec(style, path) + ": server unreachable: "@ + e@,
            ),
            _ => exists|res: Result<DocView, Seq<char>>|
                #[trigger] kind_result(style, k, path, data, res) && r == finished(
                    extension_spec(style, path),
                    res,
                ),
        },
    }
}

/// The input suits the extractor that `style`'s reading of `path` selects.
pub open spec fn input_suits(style: PathStyle, path: Seq<char>, data: SourceData) -> bool {
    kind_for(extension_spec(style, path)) matches Some(k) ==> input_fits(k, data)
}

/// Extracts the text of the file at `path` from what was read for it, under
/// the host's path rules: see `extract_outcome`.
pub fn extract(path: &str, data: SourceData) -> (r: Extraction)
    requires
        input_suits(PathStyle::Unix, path@, data),
        input_suits(PathStyle::Windows, path@, data),
    ensures
        extract_outcome(PathStyle::Unix, path@, data, r@) || extract_outcome(
            PathStyle::Windows,
            path@,
            data,
            r@,
        ),
{
    let style = host_style();
    extract_on(style, path, data)
}

/// `extract` under the path rules of `style`.
pub fn extract_on(style: PathStyle, path: &str, data: SourceData) -> (r: Extraction)
    requires
        input_suits(style, path@, data),
    ensures
        extract_outcome(style, path@, data, r@),
{
    let pv = chars_of(path);
    let ev = extension_chars(&pv, style);
    let ext = string_of(ev.as_slice());
    let kind = match extractor_for(ext.as_str()) {
        Some(k) => k,
        None => {
            let mut m = chars_of("unsupported extension: ");
            append_chars(&mut m, &ev);
            return Extraction::Skipped(string_of(m.as_slice()));
        },
    };
    let ghost d = data;
    let result: Result<ExtractedDocument, String> = match data {
        SourceData::Unreachable(e) => {
            let mut m = chars_of(ext.as_str());
            let note = chars_of(": server unreachable: ");
            append_chars(&mut m, &note);
            let ec = chars_of(e.as_str());
            append_chars(&mut m, &ec);
            return Extraction::Skipped(string_of(m.as_slice()));
        },
        SourceData::Failure(e) => Err(e),
        SourceData::Bytes(b) => match kind {
            ExtractorKind::Text => Ok(document(style, path, decode_text(b.as_slice()))),
            ExtractorKind::Docx => extract_docx(style, path, b.as_slice()),
            ExtractorKind::Pptx => extract_pptx(style, path, b.as_slice()),
            _ => extract_xlsx(style, path, b.as_slice()),
        },
        SourceData::Text(t) => match kind {
            ExtractorKind::Pdf => {
                let tc = chars_of(t.as_str());
                let c = collapse_whitespace(&tc);
                Ok(document(style, path, string_of(c.as_slice())))
            },
            _ => Ok(document(style, path, t)),
        },
    };
    assert(kind_result(style, kind, path@, d, doc_res_view(result)));
    match result {
        Ok(doc) => Extraction::Done(doc),
        Err(e) => {
            let mut m = chars_of(ext.as_str());
            let sep = chars_of(": ");
            append_chars(&mut m, &sep);
            let ec = chars_of(e.as_str());
            append_chars(&mut m, &ec);
            Extraction::Failed(string_of(m.as_slice()))
        },
    }
}

} // verus!
