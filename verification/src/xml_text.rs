//! Text collection from the XML parts of Office documents: the word-processing
//! runs, the slide text, the shared-strings table and the worksheet cells.
//! Each collector is a pass over the parser's event sequence.
use vstd::prelude::*;
use quick_xml::events::Event::{Empty, End, Eof, Start, Text};
use crate::xml_text::XmlEvent::{Chars, Close, Open, Other, SelfClosing};
use quick_xml::Reader;
use crate::strings::{
    all_ws, append_chars, chars_of, collapse_ws, is_whitespace, is_ws, join, slice_chars,
    string_of, words,
};
use crate::query::{all_whitespace, join_chars, split_words, strs};

verus! {

/// One parser event, holding what the collectors read.
pub enum XmlEvent {
    /// A start tag: its qualified name and its attributes, each as key and
    /// raw value, or `None` where the attribute was malformed.
    Open(Vec<u8>, Vec<Option<(Vec<u8>, Vec<u8>)>>),
    /// An end tag and its qualified name.
    Close(Vec<u8>),
    /// A self-closing tag.
    SelfClosing,
    /// Character data, unescaped, or `None` where unescaping failed.
    Chars(Option<String>),
    /// Any other event (comments, CDATA, declarations, ...).
    Other,
}

/// An attribute as byte sequences.
pub open spec fn attr_view(a: Option<(Vec<u8>, Vec<u8>)>) -> Option<(Seq<u8>, Seq<u8>)> {
    match a {
        Some((k, v)) => Some((k@, v@)),
        None => None,
    }
}

/// A parser event as sequences.
pub enum Ev {
    Open(Seq<u8>, Seq<Option<(Seq<u8>, Seq<u8>)>>),
    Close(Seq<u8>),
    SelfClosing,
    Chars(Option<Seq<char>>),
    Other,
}

impl View for XmlEvent {
    type V = Ev;

    open spec fn view(&self) -> Ev {
        match self {
            XmlEvent::Open(n, a) => Ev::Open(
                n@,
                a@.map_values(|x: Option<(Vec<u8>, Vec<u8>)>| attr_view(x)),
            ),
            XmlEvent::Close(n) => Ev::Close(n@),
            XmlEvent::SelfClosing => Ev::SelfClosing,
            XmlEvent::Chars(t) => Ev::Chars(
                match t {
                    Some(s) => Some(s@),
                    None => None,
                },
            ),
            XmlEvent::Other => Ev::Other,
        }
    }
}

/// The events of a parse, or the error message that stopped it.
pub open spec fn events_view(r: Result<Vec<XmlEvent>, String>) -> Result<Seq<Ev>, Seq<char>> {
    match r {
        Ok(v) => Ok(v@.map_values(|e: XmlEvent| e@)),
        Err(e) => Err(e@),
    }
}

/// What the XML reader yields for a document: every event up to the end of
/// the input, or the message of the first error. It depends on the bytes
/// alone.
pub uninterp spec fn xml_parse(bytes: Seq<u8>) -> Result<Seq<Ev>, Seq<char>>;

/// Reads `bytes` with `quick_xml::Reader::read_event` until the end of input
/// or the first error. The contract claims only that the outcome is
/// `xml_parse(bytes)`, each event converted field by field (`name()`,
/// `attributes()`, `unescape()`), and an error as its `Display` text.
#[verifier::external_body]
pub(crate) fn xml_events(bytes: &[u8]) -> (r: Result<Vec<XmlEvent>, String>)
    ensures
        events_view(r) == xml_parse(bytes@),
{
    let mut r = Reader::from_reader(bytes);
    let mut out = vec![];
    loop {
        out.push(match r.read_event() {
            Ok(Start(e)) => Open(e.name().0.into(), e.attributes().map(|a| a.ok().map(|a| (a.key.0.into(), a.value.into()))).collect()),
            Ok(End(e)) => Close(e.name().0.into()),
            Ok(Empty(_)) => SelfClosing,
            Ok(Text(t)) => Chars(t.unescape().ok().map(Into::into)),
            Ok(Eof) => return Ok(out),
            Ok(_) => Other,
            Err(e) => return Err(e.to_string())
        })
    }
}

/// The text of a `Text` event, empty where unescaping failed.
pub open spec fn text_of(t: Option<Seq<char>>) -> Seq<char> {
    match t {
        Some(s) => s,
        None => Seq::empty(),
    }
}

/// The running text of a word-processing part: character data as it
/// stands, and a space for every tag.
pub open spec fn part_raw(evs: Seq<Ev>) -> Seq<char>
    decreases evs.len(),
{
    if evs.len() == 0 {
        Seq::empty()
    } else {
        let r = part_raw(evs.drop_last());
        match evs.last() {
            Ev::Chars(t) => r + text_of(t),
            Ev::Open(_, _) => r.push(' '),
            Ev::SelfClosing => r.push(' '),
            Ev::Close(_) => r.push(' '),
            Ev::Other => r,
        }
    }
}

/// The running text of a slide: each piece of character data followed by a
/// space, and a line break for every end tag.
pub open spec fn slide_raw(evs: Seq<Ev>) -> Seq<char>
    decreases evs.len(),
{
    if evs.len() == 0 {
        Seq::empty()
    } else {
        let r = slide_raw(evs.drop_last());
        match evs.last() {
            Ev::Chars(t) => r + text_of(t) + seq![' '],
            Ev::Close(_) => r.push('\n'),
            _ => r,
        }
    }
}

/// The message for a parse failure in `part`.
pub open spec fn xml_error(part: Seq<char>, e: Seq<char>) -> Seq<char> {
    "xml parse error in "@ + part + ": "@ + e
}

/// What `part_text` returns: the part's words joined by single spaces, or
/// `None` when it holds none.
pub open spec fn part_text_spec(part: Seq<char>, bytes: Seq<u8>) -> Result<
    Option<Seq<char>>,
    Seq<char>,
> {
    match xml_parse(bytes) {
        Err(e) => Err(xml_error(part, e)),
        Ok(evs) => {
            let c = collapse_ws(part_raw(evs));
            if all_ws(c) {
                Ok(None)
            } else {
                Ok(Some(c))
            }
        },
    }
}

/// What `slide_text` returns: the slide's words joined by single spaces.
pub open spec fn slide_text_spec(part: Seq<char>, bytes: Seq<u8>) -> Result<
    Seq<char>,
    Seq<char>,
> {
    match xml_parse(bytes) {
        Err(e) => Err(xml_error(part, e)),
        Ok(evs) => Ok(collapse_ws(slide_raw(evs))),
    }
}

/// State of the shared-strings pass: the strings so far, whether a `<t>`
/// element is open, and the text gathered for the current `<si>` item.
pub open spec fn shared_fold(evs: Seq<Ev>) -> (Seq<Seq<char>>, bool, Seq<char>)
    decreases evs.len(),
{
    if evs.len() == 0 {
        (Seq::empty(), false, Seq::empty())
    } else {
        let (ss, in_t, cur) = shared_fold(evs.drop_last());
        match evs.last() {
            Ev::Open(n, _) => if n == seq![0x73u8, 0x69u8] {
                (ss, false, Seq::empty())
            } else if n == seq![0x74u8] {
                (ss, true, cur)
            } else {
                (ss, in_t, cur)
            },
            Ev::Chars(t) => if in_t {
                (ss, in_t, cur + text_of(t))
            } else {
                (ss, in_t, cur)
            },
            Ev::Close(n) => if n == seq![0x73u8, 0x69u8] {
                (ss.push(cur), false, Seq::empty())
            } else if n == seq![0x74u8] {
                (ss, false, cur)
            } else {
                (ss, in_t, cur)
            },
            _ => (ss, in_t, cur),
        }
    }
}

/// What `shared_strings` returns: one string per `<si>` item, in order,
/// holding the text of all its `<t>` runs one after another.
pub open spec fn shared_strings_spec(bytes: Seq<u8>) -> Result<Seq<Seq<char>>, Seq<char>> {
    match xml_parse(bytes) {
        Err(e) => Err("sharedStrings parse error: "@ + e),
        Ok(evs) => Ok(shared_fold(evs).0),
    }
}

/// `s` without leading and trailing whitespace.
pub open spec fn trim_ws(s: Seq<char>) -> Seq<char>
    decreases s.len(),
{
    if s.len() > 0 && is_ws(s[0]) {
        trim_ws(s.drop_first())
    } else if s.len() > 0 && is_ws(s.last()) {
        trim_ws(s.drop_last())
    } else {
        s
    }
}

/// The value of a string of decimal digits.
pub open spec fn digits_value(s: Seq<char>) -> nat
    decreases s.len(),
{
    if s.len() == 0 {
        0
    } else {
        digits_value(s.drop_last()) * 10 + ((s.last() as u32) - 48) as nat
    }
}

pub proof fn lemma_digits_prefix(s: Seq<char>, k: int)
    requires
        all_digits(s),
        0 <= k <= s.len(),
    ensures
        digits_value(s.take(k)) <= digits_value(s),
    decreases s.len(),
{
    if k < s.len() {
        assert(all_digits(s.drop_last())) by {
            assert forall|j: int| 0 <= j < s.len() - 1 implies 48 <= (#[trigger] s.drop_last()[j]) as u32
                && (s.drop_last()[j] as u32) <= 57 by {
                assert(s.drop_last()[j] == s[j]);
            }
        }
        lemma_digits_prefix(s.drop_last(), k);
        assert(s.drop_last().take(k) =~= s.take(k));
    } else {
        assert(s.take(k) =~= s);
    }
}

/// Every character is an ASCII digit.
pub open spec fn all_digits(s: Seq<char>) -> bool {
    forall|i: int| 0 <= i < s.len() ==> 48 <= (#[trigger] s[i]) as u32 && (s[i] as u32) <= 57
}

/// What parsing `s` as an unsigned integer of at most `max` gives
/// (`u32::from_str` and `usize::from_str`): an optional `+`, then one or
/// more digits, with a value that fits.
pub open spec fn parse_uint(s: Seq<char>, max: nat) -> Option<nat> {
    let d = if s.len() > 0 && s[0] == '+' {
        s.drop_first()
    } else {
        s
    };
    if d.len() == 0 || !all_digits(d) || digits_value(d) > max {
        None
    } else {
        Some(digits_value(d))
    }
}

/// The attribute list marks a cell whose value indexes the shared strings
/// (`t="s"`).
pub open spec fn marks_shared(attrs: Seq<Option<(Seq<u8>, Seq<u8>)>>) -> bool {
    exists|i: int|
        0 <= i < attrs.len() && #[trigger] attrs[i] == Some((seq![0x74u8], seq![0x73u8]))
}

/// `n` is `v` or `is`, the elements that hold a cell's value.
pub open spec fn is_value_tag(n: Seq<u8>) -> bool {
    n == seq![0x76u8] || n == seq![0x69u8, 0x73u8]
}

/// The text a cell value contributes: for a shared-string cell the string
/// its index names (nothing when the index is not a number or out of
/// range), otherwise the value itself.
pub open spec fn cell_piece(raw: Seq<char>, is_shared: bool, shared: Seq<Seq<char>>) -> Option<
    Seq<char>,
> {
    if is_shared {
        match parse_uint(trim_ws(raw), usize::MAX as nat) {
            Some(idx) => if idx < shared.len() {
                Some(shared[idx as int])
            } else {
                None
            },
            None => None,
        }
    } else {
        Some(raw)
    }
}

/// State of the worksheet pass: the cell texts so far, whether a value
/// element is open, and whether the current cell is a shared-string cell.
pub open spec fn sheet_fold(evs: Seq<Ev>, shared: Seq<Seq<char>>) -> (Seq<Seq<char>>, bool, bool)
    decreases evs.len(),
{
    if evs.len() == 0 {
        (Seq::empty(), false, false)
    } else {
        let (out, in_value, is_shared) = sheet_fold(evs.drop_last(), shared);
        match evs.last() {
            Ev::Open(n, attrs) => if n == seq![0x63u8] {
                (out, in_value, marks_shared(attrs))
            } else if is_value_tag(n) {
                (out, true, is_shared)
            } else {
                (out, in_value, is_shared)
            },
            Ev::Chars(t) => if in_value {
                match cell_piece(text_of(t), is_shared, shared) {
                    Some(p) => (out.push(p), in_value, is_shared),
                    None => (out, in_value, is_shared),
                }
            } else {
                (out, in_value, is_shared)
            },
            Ev::Close(n) => if is_value_tag(n) {
                (out, false, is_shared)
            } else if n == seq![0x63u8] {
                (out, in_value, false)
            } else {
                (out, in_value, is_shared)
            },
            _ => (out, in_value, is_shared),
        }
    }
}

/// What `sheet_text` returns: the cell texts joined by single spaces.
pub open spec fn sheet_text_spec(part: Seq<char>, bytes: Seq<u8>, shared: Seq<Seq<char>>) -> Result<
    Seq<char>,
    Seq<char>,
> {
    match xml_parse(bytes) {
        Err(e) => Err("sheet parse error in "@ + part + ": "@ + e),
        Ok(evs) => Ok(join(sheet_fold(evs, shared).0, seq![' '])),
    }
}

/// The characters of `Text` event data, empty where it failed to unescape.
fn text_chars(t: &Option<String>) -> (r: Vec<char>)
    ensures
        r@ == text_of(
            match t {
                Some(s) => Some(s@),
                None => None,
            },
        ),
{
    match t {
        Some(s) => chars_of(s.as_str()),
        None => Vec::new(),
    }
}

/// `prefix + part + ": " + e` as a `String`.
pub(crate) fn error_message(prefix: &str, part: &str, e: &String) -> (r: String)
    ensures
        r@ == prefix@ + part@ + ": "@ + e@,
{
    let mut m = chars_of(prefix);
    let p = chars_of(part);
    append_chars(&mut m, &p);
    let sep = chars_of(": ");
    append_chars(&mut m, &sep);
    let ev = chars_of(e.as_str());
    append_chars(&mut m, &ev);
    string_of(m.as_slice())
}

/// `s` with its runs of whitespace collapsed to single spaces and the ends
/// trimmed.
pub fn collapse_whitespace(s: &Vec<char>) -> (r: Vec<char>)
    ensures
        r@ == collapse_ws(s@),
{
    let w = split_words(s);
    let mut sp: Vec<char> = Vec::new();
    sp.push(' ');
    assert(sp@ =~= seq![' ']);
    join_chars(&w, &sp)
}

/// The text of a word-processing part (`word/document.xml` and the like):
/// the words of its character data, with every tag boundary breaking words,
/// joined by single spaces; `None` when there are none.
pub fn part_text(part: &str, bytes: &[u8]) -> (r: Result<Option<String>, String>)
    ensures
        match r {
            Ok(Some(s)) => part_text_spec(part@, bytes@) == Ok::<Option<Seq<char>>, Seq<char>>(
                Some(s@),
            ),
            Ok(None) => part_text_spec(part@, bytes@) == Ok::<Option<Seq<char>>, Seq<char>>(None),
            Err(e) => part_text_spec(part@, bytes@) == Err::<Option<Seq<char>>, Seq<char>>(e@),
        },
{
    let evs = match xml_events(bytes) {
        Ok(v) => v,
        Err(e) => {
            return Err(error_message("xml parse error in ", part, &e));
        },
    };
    let ghost ev = evs@.map_values(|e: XmlEvent| e@);
    let mut raw: Vec<char> = Vec::new();
    let mut i: usize = 0;
    while i < evs.len()
        invariant
            i <= evs.len(),
            ev == evs@.map_values(|e: XmlEvent| e@),
            raw@ == part_raw(ev.take(i as int)),
        decreases evs.len() - i,
    {
        assert(ev.take(i + 1).drop_last() =~= ev.take(i as int));
        assert(ev.take(i + 1).last() == evs@[i as int]@);
        match &evs[i] {
            XmlEvent::Chars(t) => {
                let c = text_chars(t);
                append_chars(&mut raw, &c);
            },
            XmlEvent::Open(_, _) | XmlEvent::SelfClosing | XmlEvent::Close(_) => {
                raw.push(' ');
            },
            XmlEvent::Other => {},
        }
        i = i + 1;
    }
    assert(ev.take(evs.len() as int) =~= ev);
    let c = collapse_whitespace(&raw);
    if all_whitespace(&c) {
        Ok(None)
    } else {
        Ok(Some(string_of(c.as_slice())))
    }
}

/// The text of a slide: its character data, words joined by single spaces.
pub fn slide_text(part: &str, bytes: &[u8]) -> (r: Result<String, String>)
    ensures
        match r {
            Ok(s) => slide_text_spec(part@, bytes@) == Ok::<Seq<char>, Seq<char>>(s@),
            Err(e) => slide_text_spec(part@, bytes@) == Err::<Seq<char>, Seq<char>>(e@),
        },
{
    let evs = match xml_events(bytes) {
        Ok(v) => v,
        Err(e) => {
            return Err(error_message("xml parse error in ", part, &e));
        },
    };
    let ghost ev = evs@.map_values(|e: XmlEvent| e@);
    let mut raw: Vec<char> = Vec::new();
    let mut i: usize = 0;
    while i < evs.len()
        invariant
            i <= evs.len(),
            ev == evs@.map_values(|e: XmlEvent| e@),
            raw@ == slide_raw(ev.take(i as int)),
        decreases evs.len() - i,
    {
        assert(ev.take(i + 1).drop_last() =~= ev.take(i as int));
        assert(ev.take(i + 1).last() == evs@[i as int]@);
        match &evs[i] {
            XmlEvent::Chars(t) => {
                let c = text_chars(t);
                append_chars(&mut raw, &c);
                raw.push(' ');
            },
            XmlEvent::Close(_) => {
                raw.push('\n');
            },
            _ => {},
        }
        i = i + 1;
    }
    assert(ev.take(evs.len() as int) =~= ev);
    let c = collapse_whitespace(&raw);
    Ok(string_of(c.as_slice()))
}

/// `n` holds exactly the bytes of `lit`.
fn bytes_are(n: &Vec<u8>, lit: &[u8]) -> (r: bool)
    ensures
        r == (n@ == lit@),
{
    if n.len() != lit.len() {
        return false;
    }
    let mut i: usize = 0;
    while i < n.len()
        invariant
            i <= n.len() == lit@.len(),
            forall|j: int| 0 <= j < i ==> n@[j] == lit@[j],
        decreases n.len() - i,
    {
        if n[i] != lit[i] {
            return false;
        }
        i = i + 1;
    }
    assert(n@ =~= lit@);
    true
}

/// The name is `t`.
fn is_t(n: &Vec<u8>) -> (r: bool)
    ensures
        r == (n@ == seq![0x74u8]),
{
    n.len() == 1 && n[0] == 0x74u8 && {
        assert(n@ =~= seq![0x74u8]);
        true
    }
}

/// The name is `si`.
fn is_si(n: &Vec<u8>) -> (r: bool)
    ensures
        r == (n@ == seq![0x73u8, 0x69u8]),
{
    if n.len() == 2 && n[0] == 0x73u8 && n[1] == 0x69u8 {
        assert(n@ =~= seq![0x73u8, 0x69u8]);
        true
    } else {
        false
    }
}

/// The name is `c`.
fn is_c(n: &Vec<u8>) -> (r: bool)
    ensures
        r == (n@ == seq![0x63u8]),
{
    n.len() == 1 && n[0] == 0x63u8 && {
        assert(n@ =~= seq![0x63u8]);
        true
    }
}

/// The name is `v` or `is`.
fn is_value(n: &Vec<u8>) -> (r: bool)
    ensures
        r == is_value_tag(n@),
{
    let v = n.len() == 1 && n[0] == 0x76u8;
    let s = n.len() == 2 && n[0] == 0x69u8 && n[1] == 0x73u8;
    if v {
        assert(n@ =~= seq![0x76u8]);
    }
    if s {
        assert(n@ =~= seq![0x69u8, 0x73u8]);
    }
    if !v && !s {
        assert(n@ != seq![0x76u8]) by {
            if n@ =~= seq![0x76u8] {
                assert(n@[0] == 0x76u8);
            }
        }
        assert(n@ != seq![0x69u8, 0x73u8]) by {
            if n@ =~= seq![0x69u8, 0x73u8] {
                assert(n@[0] == 0x69u8 && n@[1] == 0x73u8);
            }
        }
    }
    v || s
}

/// The strings of the shared-strings part: one per `<si>` item, in order,
/// each holding the text of all the item's `<t>` runs.
pub fn shared_strings(bytes: &[u8]) -> (r: Result<Vec<String>, String>)
    ensures
        match r {
            Ok(v) => shared_strings_spec(bytes@) == Ok::<Seq<Seq<char>>, Seq<char>>(strs(v@)),
            Err(e) => shared_strings_spec(bytes@) == Err::<Seq<Seq<char>>, Seq<char>>(e@),
        },
{
    let evs = match xml_events(bytes) {
        Ok(v) => v,
        Err(e) => {
            let mut m = chars_of("sharedStrings parse error: ");
            let ec = chars_of(e.as_str());
            append_chars(&mut m, &ec);
            return Err(string_of(m.as_slice()));
        },
    };
    let ghost ev = evs@.map_values(|e: XmlEvent| e@);
    let mut strings: Vec<String> = Vec::new();
    let mut in_t = false;
    let mut current: Vec<char> = Vec::new();
    let mut i: usize = 0;
    while i < evs.len()
        invariant
            i <= evs.len(),
            ev == evs@.map_values(|e: XmlEvent| e@),
            shared_fold(ev.take(i as int)) == (strs(strings@), in_t, current@),
        decreases evs.len() - i,
    {
        assert(ev.take(i + 1).drop_last() =~= ev.take(i as int));
        assert(ev.take(i + 1).last() == evs@[i as int]@);
        match &evs[i] {
            XmlEvent::Open(n, _) => {
                if is_si(n) {
                    in_t = false;
                    current = Vec::new();
                } else if is_t(n) {
                    in_t = true;
                }
            },
            XmlEvent::Chars(t) => {
                if in_t {
                    let c = text_chars(t);
                    append_chars(&mut current, &c);
                }
            },
            XmlEvent::Close(n) => {
                if is_si(n) {
                    let ghost before = strings@;
                    strings.push(string_of(current.as_slice()));
                    assert(strs(strings@) =~= strs(before).push(current@));
                    in_t = false;
                    current = Vec::new();
                } else if is_t(n) {
                    in_t = false;
                }
            },
            _ => {},
        }
        i = i + 1;
    }
    assert(ev.take(evs.len() as int) =~= ev);
    Ok(strings)
}

/// `s` without its leading and trailing whitespace.
pub fn trim_whitespace(s: &Vec<char>) -> (r: Vec<char>)
    ensures
        r@ == trim_ws(s@),
{
    let mut a: usize = 0;
    let mut b: usize = s.len();
    assert(s@.subrange(0, s.len() as int) =~= s@);
    while a < b && is_whitespace(s[a])
        invariant
            a <= b == s.len(),
            trim_ws(s@) == trim_ws(s@.subrange(a as int, b as int)),
        decreases b - a,
    {
        assert(s@.subrange(a as int, b as int).drop_first() =~= s@.subrange(a + 1, b as int));
        a = a + 1;
    }
    while a < b && is_whitespace(s[b - 1])
        invariant
            a <= b <= s.len(),
            a < b ==> !is_ws(s@[a as int]),
            trim_ws(s@) == trim_ws(s@.subrange(a as int, b as int)),
        decreases b - a,
    {
        assert(s@.subrange(a as int, b as int).drop_last() =~= s@.subrange(a as int, b - 1));
        assert(s@.subrange(a as int, b as int)[0] == s@[a as int]);
        b = b - 1;
    }
    if a < b {
        assert(s@.subrange(a as int, b as int)[0] == s@[a as int]);
        assert(s@.subrange(a as int, b as int).last() == s@[b - 1]);
    }
    slice_chars(s, a, b)
}

/// Parses an unsigned decimal number of at most `max`: an optional `+`,
/// then digits only.
pub fn parse_unsigned(s: &Vec<char>, max: u64) -> (r: Option<u64>)
    requires
        max >= 9,
    ensures
        match r {
            Some(n) => parse_uint(s@, max as nat) == Some(n as nat),
            None => parse_uint(s@, max as nat) is None,
        },
{
    let start: usize = if s.len() > 0 && s[0] == '+' {
        1
    } else {
        0
    };
    let ghost d = if s@.len() > 0 && s@[0] == '+' {
        s@.drop_first()
    } else {
        s@
    };
    assert(d =~= s@.subrange(start as int, s.len() as int));
    if start == s.len() {
        return None;
    }
    let mut value: u64 = 0;
    let mut i = start;
    assert(s@.subrange(start as int, start as int) =~= Seq::<char>::empty());
    while i < s.len()
        invariant
            start <= i <= s.len(),
            max >= 9,
            d == s@.subrange(start as int, s.len() as int),
            d == (if s@.len() > 0 && s@[0] == '+' {
                s@.drop_first()
            } else {
                s@
            }),
            all_digits(s@.subrange(start as int, i as int)),
            value as nat == digits_value(s@.subrange(start as int, i as int)),
            value <= max,
        decreases s.len() - i,
    {
        let c = s[i];
        assert(s@.subrange(start as int, i + 1).drop_last() =~= s@.subrange(start as int, i as int));
        assert(s@.subrange(start as int, i + 1).last() == c);
        let cu = c as u32;
        if !(48 <= cu && cu <= 57) {
            assert(d[i - start] == c);
            assert(!(48 <= (d[i - start] as u32) && (d[i - start] as u32) <= 57));
            assert(!all_digits(d));
            return None;
        }
        let digit = (cu - 48) as u64;
        assert(digit <= 9);
        assert(digits_value(s@.subrange(start as int, i + 1)) == value * 10 + digit);
        assert(all_digits(s@.subrange(start as int, i + 1))) by {
            assert forall|j: int| 0 <= j < i + 1 - start implies 48 <= (#[trigger] s@.subrange(
                start as int,
                i + 1,
            )[j]) as u32 && (s@.subrange(start as int, i + 1)[j] as u32) <= 57 by {
                if j < i - start {
                    assert(s@.subrange(start as int, i + 1)[j] == s@.subrange(
                        start as int,
                        i as int,
                    )[j]);
                }
            }
        }
        if value > (max - digit) / 10 {
            assert(value * 10 + digit > max) by (nonlinear_arith)
                requires
                    value > (max - digit) / 10,
                    digit <= 9,
                    max >= 9,
            {
            }
            proof {
                if all_digits(d) {
                    lemma_digits_prefix(d, i + 1 - start);
                    assert(d.take(i + 1 - start) =~= s@.subrange(start as int, i + 1));
                }
            }
            return None;
        }
        assert(value * 10 + digit <= max) by (nonlinear_arith)
            requires
                value <= (max - digit) / 10,
                digit <= 9,
                max >= 9,
        {
        }
        value = value * 10 + digit;
        i = i + 1;
    }
    assert(s@.subrange(start as int, s.len() as int) =~= d);
    Some(value)
}

/// The attribute list holds `t="s"`.
fn has_shared_mark(attrs: &Vec<Option<(Vec<u8>, Vec<u8>)>>) -> (r: bool)
    ensures
        r == marks_shared(attrs@.map_values(|x: Option<(Vec<u8>, Vec<u8>)>| attr_view(x))),
{
    let ghost av = attrs@.map_values(|x: Option<(Vec<u8>, Vec<u8>)>| attr_view(x));
    let mut i: usize = 0;
    while i < attrs.len()
        invariant
            i <= attrs.len(),
            av == attrs@.map_values(|x: Option<(Vec<u8>, Vec<u8>)>| attr_view(x)),
            forall|j: int| 0 <= j < i ==> av[j] != Some((seq![0x74u8], seq![0x73u8])),
        decreases attrs.len() - i,
    {
        match &attrs[i] {
            Some((k, v)) => {
                let kt = k.len() == 1 && k[0] == 0x74u8;
                let vs = v.len() == 1 && v[0] == 0x73u8;
                if kt && vs {
                    assert(k@ =~= seq![0x74u8]);
                    assert(v@ =~= seq![0x73u8]);
                    assert(av[i as int] == Some((seq![0x74u8], seq![0x73u8])));
                    return true;
                }
                assert(av[i as int] != Some((seq![0x74u8], seq![0x73u8]))) by {
                    if av[i as int] == Some((seq![0x74u8], seq![0x73u8])) {
                        assert(k@ == seq![0x74u8] && v@ == seq![0x73u8]);
                        assert(k@[0] == 0x74u8 && v@[0] == 0x73u8);
                    }
                }
            },
            None => {},
        }
        i = i + 1;
    }
    false
}

/// The text a cell value contributes (see `cell_piece`).
fn cell_text(raw: Vec<char>, is_shared: bool, shared: &Vec<String>) -> (r: Option<Vec<char>>)
    ensures
        match r {
            Some(p) => cell_piece(raw@, is_shared, strs(shared@)) == Some(p@),
            None => cell_piece(raw@, is_shared, strs(shared@)) is None,
        },
{
    if is_shared {
        let t = trim_whitespace(&raw);
        match parse_unsigned(&t, usize::MAX as u64) {
            Some(idx) => {
                if idx < shared.len() as u64 {
                    let s = chars_of(shared[idx as usize].as_str());
                    Some(s)
                } else {
                    None
                }
            },
            None => None,
        }
    } else {
        Some(raw)
    }
}

/// The text of a worksheet: the value of each cell, shared-string cells
/// resolved through `shared`, joined by single spaces.
pub fn sheet_text(part: &str, bytes: &[u8], shared: &Vec<String>) -> (r: Result<String, String>)
    ensures
        match r {
            Ok(s) => sheet_text_spec(part@, bytes@, strs(shared@)) == Ok::<Seq<char>, Seq<char>>(
                s@,
            ),
            Err(e) => sheet_text_spec(part@, bytes@, strs(shared@)) == Err::<Seq<char>, Seq<char>>(
                e@,
            ),
        },
{
    let evs = match xml_events(bytes) {
        Ok(v) => v,
        Err(e) => {
            return Err(error_message("sheet parse error in ", part, &e));
        },
    };
    let ghost ev = evs@.map_values(|e: XmlEvent| e@);
    let ghost sv = strs(shared@);
    let mut out: Vec<Vec<char>> = Vec::new();
    let mut in_value = false;
    let mut is_shared = false;
    let mut i: usize = 0;
    while i < evs.len()
        invariant
            i <= evs.len(),
            ev == evs@.map_values(|e: XmlEvent| e@),
            sv == strs(shared@),
            sheet_fold(ev.take(i as int), sv) == (
                out@.map_values(|w: Vec<char>| w@),
                in_value,
                is_shared,
            ),
        decreases evs.len() - i,
    {
        assert(ev.take(i + 1).drop_last() =~= ev.take(i as int));
        assert(ev.take(i + 1).last() == evs@[i as int]@);
        match &evs[i] {
            XmlEvent::Open(n, attrs) => {
                if is_c(n) {
                    is_shared = has_shared_mark(attrs);
                } else if is_value(n) {
                    in_value = true;
                }
            },
            XmlEvent::Chars(t) => {
                if in_value {
                    let raw = text_chars(t);
                    match cell_text(raw, is_shared, shared) {
                        Some(p) => {
                            let ghost before = out@.map_values(|w: Vec<char>| w@);
                            out.push(p);
                            assert(out@.map_values(|w: Vec<char>| w@) =~= before.push(p@));
                        },
                        None => {},
                    }
                }
            },
            XmlEvent::Close(n) => {
                if is_value(n) {
                    in_value = false;
                } else if is_c(n) {
                    is_shared = false;
                }
            },
            _ => {},
        }
        i = i + 1;
    }
    assert(ev.take(evs.len() as int) =~= ev);
    let mut sp: Vec<char> = Vec::new();
    sp.push(' ');
    assert(sp@ =~= seq![' ']);
    let j = join_chars(&out, &sp);
    Ok(string_of(j.as_slice()))
}

} // verus!
