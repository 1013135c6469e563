use file_search_app::documents::{
    archive_names, decode_text, extract, extract_docx, extract_pptx, extract_xlsx, extractor_for,
    pdf_size_allowed, slide_parts, sorted_parts, text_size_allowed, Extraction, ExtractorKind,
    SourceData,
};
use file_search_app::paths::PathStyle;
use file_search_app::xml_text::{part_text, shared_strings, sheet_text, slide_text};
use std::io::Write;

fn zip_of(entries: &[(&str, &str)]) -> Vec<u8> {
    let mut w = zip::ZipWriter::new(std::io::Cursor::new(Vec::new()));
    for (name, body) in entries {
        w.start_file(*name, zip::write::SimpleFileOptions::default()).unwrap();
        w.write_all(body.as_bytes()).unwrap();
    }
    w.finish().unwrap().into_inner()
}

fn names(v: &[&str]) -> Vec<String> {
    v.iter().map(|x| x.to_string()).collect()
}

#[test]
fn part_text_breaks_words_at_tags() {
    let xml = b"<w:document><w:body><w:p><w:r><w:t>Hello</w:t></w:r><w:r><w:t>World</w:t></w:r></w:p><w:p><w:r><w:t>A &amp; B</w:t></w:r></w:p></w:body></w:document>";
    assert_eq!(part_text("word/document.xml", xml).unwrap(), Some("Hello World A & B".to_string()));
}

#[test]
fn part_text_without_words_is_none() {
    assert_eq!(part_text("word/empty.xml", b"<w:document>  <w:body/> </w:document>").unwrap(), None);
}

#[test]
fn part_text_reports_parse_errors_with_the_part() {
    let e = part_text("word/bad.xml", b"<a></b>").unwrap_err();
    assert!(e.starts_with("xml parse error in word/bad.xml: "), "{e}");
}

#[test]
fn slide_text_collects_character_data() {
    let xml = b"<p:sld><a:t>Title</a:t><a:t>Body  text</a:t></p:sld>";
    assert_eq!(slide_text("ppt/slides/slide1.xml", xml).unwrap(), "Title Body text");
}

#[test]
fn shared_strings_reads_t_elements() {
    let xml = "<sst><si><t>볼트</t></si><si><r><t>품</t></r><r><t>목</t></r></si><si><t></t></si></sst>";
    assert_eq!(shared_strings(xml.as_bytes()).unwrap(), names(&["볼트", "품목", ""]));
}

#[test]
fn shared_strings_join_rich_text_runs_per_item() {
    let xml = "<sst><si><r><t>ab</t></r><r><t>c</t></r></si><si><t>d</t></si><si><t/></si></sst>";
    assert_eq!(shared_strings(xml.as_bytes()).unwrap(), names(&["abc", "d", ""]));
}

#[test]
fn sheet_text_resolves_shared_strings() {
    let shared = names(&["볼트", "품목"]);
    let xml = b"<worksheet><sheetData><row><c r=\"A1\" t=\"s\"><v> 1 </v></c><c r=\"B1\"><v>1000</v></c><c t=\"s\"><v>9</v></c><c t=\"s\"><v>x</v></c><c><is><t>inline</t></is></c></row></sheetData></worksheet>";
    assert_eq!(sheet_text("xl/worksheets/sheet1.xml", xml, &shared).unwrap(), "품목 1000 inline");
}

#[test]
fn sheet_text_reports_parse_errors() {
    let e = sheet_text("xl/worksheets/sheet1.xml", b"<a></b>", &vec![]).unwrap_err();
    assert!(e.starts_with("sheet parse error in xl/worksheets/sheet1.xml: "), "{e}");
}

#[test]
fn sorted_parts_selects_and_orders_by_name() {
    let all = names(&["word/styles.xml", "[Content_Types].xml", "word/document.xml", "word/media/a.png", "docProps/app.xml"]);
    assert_eq!(sorted_parts(&all, "word/", ".xml"), names(&["word/document.xml", "word/styles.xml"]));
}

#[test]
fn slide_parts_orders_by_number() {
    let all = names(&["ppt/slides/slide10.xml", "ppt/slides/slide2.xml", "ppt/slides/_rels/slide1.xml.rels", "ppt/slides/slide1.xml", "ppt/slides/slideX.xml", "ppt/slides/slide+3.xml"]);
    assert_eq!(
        slide_parts(&all),
        names(&["ppt/slides/slide1.xml", "ppt/slides/slide2.xml", "ppt/slides/slide+3.xml", "ppt/slides/slide10.xml"])
    );
}

#[test]
fn slide_parts_keeps_archive_order_for_equal_numbers() {
    let all = names(&["ppt/slides/slide02.xml", "ppt/slides/slide1.xml", "ppt/slides/slide2.xml"]);
    assert_eq!(slide_parts(&all), names(&["ppt/slides/slide1.xml", "ppt/slides/slide02.xml", "ppt/slides/slide2.xml"]));
}

#[test]
fn archive_names_lists_entries_in_order() {
    let z = zip_of(&[("b.xml", "<b/>"), ("a.xml", "<a/>")]);
    assert_eq!(archive_names(&z).unwrap(), names(&["b.xml", "a.xml"]));
    assert!(archive_names(b"not a zip").is_err());
}

#[test]
fn docx_extraction_reads_word_parts() {
    let z = zip_of(&[
        ("word/document.xml", "<w:document><w:p><w:t>스마트팩토리 구축</w:t></w:p></w:document>"),
        ("word/a.xml", "<x><y>first</y></x>"),
        ("word/empty.xml", "<x/>"),
        ("docProps/core.xml", "<c>ignored</c>"),
    ]);
    let d = extract_docx(PathStyle::Unix, "/docs/회의록_2026.docx", &z).unwrap();
    assert_eq!(d.title, Some("회의록_2026".to_string()));
    assert_eq!(d.content, "first\n스마트팩토리 구축\n");
    assert_eq!(d.author, None);
}

#[test]
fn pptx_extraction_reads_slides_in_order() {
    let z = zip_of(&[
        ("ppt/slides/slide2.xml", "<p:sld><a:t>second</a:t></p:sld>"),
        ("ppt/slides/slide1.xml", "<p:sld><a:t>first</a:t></p:sld>"),
        ("ppt/slides/slide3.xml", "<p:sld></p:sld>"),
    ]);
    let d = extract_pptx(PathStyle::Unix, "deck.pptx", &z).unwrap();
    assert_eq!(d.content, "first\nsecond\n");
    assert_eq!(d.title, Some("deck".to_string()));
}

#[test]
fn xlsx_extraction_reads_sheets_with_shared_strings() {
    let z = zip_of(&[
        ("xl/worksheets/sheet2.xml", "<w><c><v>2</v></c></w>"),
        ("xl/sharedStrings.xml", "<sst><si><t>품목</t></si><si><t>수량</t></si></sst>"),
        ("xl/worksheets/sheet1.xml", "<w><c t=\"s\"><v>0</v></c><c t=\"s\"><v>1</v></c></w>"),
    ]);
    let d = extract_xlsx(PathStyle::Unix, "data.xlsx", &z).unwrap();
    assert_eq!(d.content, "품목 수량\n2\n");
}

#[test]
fn xlsx_without_shared_strings() {
    let z = zip_of(&[("xl/worksheets/sheet1.xml", "<w><c><v>7</v></c><c t=\"s\"><v>0</v></c></w>")]);
    assert_eq!(extract_xlsx(PathStyle::Unix, "d.xlsx", &z).unwrap().content, "7\n");
}

#[test]
fn decode_text_handles_utf8_bom_and_errors() {
    assert_eq!(decode_text("회의록".as_bytes()), "회의록");
    assert_eq!(decode_text(&[0xef, 0xbb, 0xbf, b'h', b'i']), "hi");
    assert_eq!(decode_text(&[b'A', 0xff]), "A\u{fffd}");
}

#[test]
fn size_limits() {
    assert!(text_size_allowed(20 * 1024 * 1024));
    assert!(!text_size_allowed(20 * 1024 * 1024 + 1));
    assert!(pdf_size_allowed(200 * 1024 * 1024));
    assert!(!pdf_size_allowed(200 * 1024 * 1024 + 1));
}

#[test]
fn extractor_by_extension() {
    assert_eq!(extractor_for("md"), Some(ExtractorKind::Text));
    assert_eq!(extractor_for("docx"), Some(ExtractorKind::Docx));
    assert_eq!(extractor_for("pptx"), Some(ExtractorKind::Pptx));
    assert_eq!(extractor_for("xlsx"), Some(ExtractorKind::Xlsx));
    assert_eq!(extractor_for("pdf"), Some(ExtractorKind::Pdf));
    assert_eq!(extractor_for("xls"), Some(ExtractorKind::Tika));
    assert_eq!(extractor_for("exe"), None);
    assert_eq!(extractor_for("TXT"), None);
}

#[test]
fn extract_skips_unsupported_extensions() {
    match extract("/d/notes.xyz", SourceData::Failure("unused".to_string())) {
        Extraction::Skipped(m) => assert_eq!(m, "unsupported extension: xyz"),
        _ => panic!("expected skipped"),
    }
    match extract("/d/noext", SourceData::Failure("unused".to_string())) {
        Extraction::Skipped(m) => assert_eq!(m, "unsupported extension: "),
        _ => panic!("expected skipped"),
    }
}

#[test]
fn extract_reports_failures_with_the_extension() {
    match extract("/d/a.TXT", SourceData::Failure("boom".to_string())) {
        Extraction::Failed(m) => assert_eq!(m, "txt: boom"),
        _ => panic!("expected failure"),
    }
    match extract("/d/a.docx", SourceData::Bytes(b"garbage".to_vec())) {
        Extraction::Failed(m) => assert!(m.starts_with("docx: "), "{m}"),
        _ => panic!("expected failure"),
    }
}

#[test]
fn extract_skips_legacy_files_when_the_server_is_unreachable() {
    match extract("/d/old.DOC", SourceData::Unreachable("connection refused".to_string())) {
        Extraction::Skipped(m) => assert_eq!(m, "doc: server unreachable: connection refused"),
        _ => panic!("expected skipped"),
    }
    match extract("/d/old.xls", SourceData::Failure("tika server returned 500".to_string())) {
        Extraction::Failed(m) => assert_eq!(m, "xls: tika server returned 500"),
        _ => panic!("expected failure"),
    }
}

#[test]
fn extract_builds_documents() {
    match extract("/d/계획.txt", SourceData::Bytes("MES 시스템".as_bytes().to_vec())) {
        Extraction::Done(d) => {
            assert_eq!(d.title, Some("계획".to_string()));
            assert_eq!(d.content, "MES 시스템");
        }
        _ => panic!("expected document"),
    }
    match extract("/d/r.pdf", SourceData::Text("  a \n\n b ".to_string())) {
        Extraction::Done(d) => assert_eq!(d.content, "a b"),
        _ => panic!("expected document"),
    }
    match extract("/d/old.doc", SourceData::Text(" as is ".to_string())) {
        Extraction::Done(d) => assert_eq!(d.content, " as is "),
        _ => panic!("expected document"),
    }
}

fn stored_zip_with_damaged_entry(name: &str, body: &str, word: &str, damaged: &str) -> Vec<u8> {
    let mut w = zip::ZipWriter::new(std::io::Cursor::new(Vec::new()));
    let opts = zip::write::SimpleFileOptions::default().compression_method(zip::CompressionMethod::Stored);
    w.start_file(name, opts).unwrap();
    w.write_all(body.as_bytes()).unwrap();
    let mut bytes = w.finish().unwrap().into_inner();
    let at = bytes.windows(word.len()).position(|x| x == word.as_bytes()).unwrap();
    bytes[at..at + word.len()].copy_from_slice(damaged.as_bytes());
    bytes
}

#[test]
fn damaged_parts_are_reported_as_xml_read_errors() {
    let z = stored_zip_with_damaged_entry("word/document.xml", "<w:t>hello</w:t>", "hello", "jello");
    let e = match extract_docx(PathStyle::Unix, "a.docx", &z) {
        Err(e) => e,
        Ok(_) => panic!("expected an error"),
    };
    assert!(e.starts_with("xml parse error in word/document.xml: I/O error: "), "{e}");
    let z = stored_zip_with_damaged_entry("xl/sharedStrings.xml", "<sst><si><t>abc</t></si></sst>", "abc", "abd");
    let e = match extract_xlsx(PathStyle::Unix, "a.xlsx", &z) {
        Err(e) => e,
        Ok(_) => panic!("expected an error"),
    };
    assert!(e.starts_with("sharedStrings parse error: I/O error: "), "{e}");
}
