use insearch::docx::docx_xml_to_text;
use insearch::extract::{docx_bytes_text, sheets_to_text, DocxExtractor, Source, SpreadsheetExtractor};

#[test]
fn docx_xml_extracts_paragraph_text() {
    let xml = r#"<w:document xmlns:w="x"><w:body>
        <w:p><w:r><w:t>Hello</w:t><w:t> World</w:t></w:r></w:p>
        <w:p><w:r><w:t>second line</w:t></w:r></w:p>
    </w:body></w:document>"#;
    let text = docx_xml_to_text(xml);
    assert!(text.contains("Hello World"));
    assert!(text.contains("second line"));
    // Paragraphs are newline-separated.
    assert!(text.lines().count() >= 2);
}

#[test]
fn docx_breaks_tabs_and_text_outside_runs() {
    let xml = r#"<w:body><w:p><w:t>a</w:t><w:tab/><w:t>b</w:t><w:br/><w:t>c</w:t></w:p>ignored<w:p/></w:body>"#;
    assert_eq!(docx_xml_to_text(xml), "a\tb\nc\n");
    assert_eq!(docx_xml_to_text(""), "");
    assert_eq!(docx_xml_to_text("<w:t>cut off"), "cut off");
}

#[test]
fn sheets_become_tab_separated_lines() {
    let book = vec![
        vec![vec!["Revenue".to_string(), "Q3 summary".to_string()], vec!["other".to_string()]],
        vec![vec![]],
        vec![],
        vec![vec!["x".to_string(), "".to_string(), "z".to_string()]],
    ];
    assert_eq!(sheets_to_text(&book), "Revenue\tQ3 summary\nother\n\nx\t\tz\n");
    assert_eq!(sheets_to_text(&Vec::new()), "");
}

fn zip_with(name: &str, body: &str) -> Vec<u8> {
    let mut w = zip::ZipWriter::new(std::io::Cursor::new(Vec::new()));
    let opts = zip::write::SimpleFileOptions::default().compression_method(zip::CompressionMethod::Stored);
    w.start_file(name, opts).unwrap();
    std::io::Write::write_all(&mut w, body.as_bytes()).unwrap();
    w.finish().unwrap().into_inner()
}

#[test]
fn docx_bytes_are_read_through_the_document_entry() {
    let xml = r#"<w:document xmlns:w="x"><w:body><w:p><w:r><w:t>Hello</w:t></w:r></w:p><w:p><w:r><w:t>again</w:t></w:r></w:p></w:body></w:document>"#;
    let bytes = zip_with("word/document.xml", xml);
    assert_eq!(docx_bytes_text(&bytes).as_deref(), Some("Hello\nagain\n"));
    match DocxExtractor.extract(&bytes) {
        Some(Source::Materialized(t)) => assert_eq!(t, "Hello\nagain\n"),
        _ => panic!("expected text"),
    }
    // An archive without the document entry, or no archive at all, is skipped.
    assert!(DocxExtractor.extract(&zip_with("other.xml", xml)).is_none());
    assert!(DocxExtractor.extract(b"not a zip").is_none());
}

#[test]
fn workbook_cells_become_tab_separated_lines() {
    let book = vec![vec![vec!["a".to_string(), "b".to_string()], vec!["c".to_string()]]];
    match SpreadsheetExtractor.extract(&book) {
        Source::Materialized(t) => assert_eq!(t, "a\tb\nc\n"),
        Source::Raw => panic!("expected text"),
    }
}
