use insearch::extract::{
    default_registry, file_name, DocxExtractor, ExtractorKind, PdfExtractor, PlainTextExtractor, Registry, Source,
    SpreadsheetExtractor,
};

#[test]
fn resolves_plain_text_for_known_and_unknown() {
    let reg = Registry::with_defaults();
    // Known text extension.
    assert_eq!(reg.resolve("app.log"), ExtractorKind::PlainText);
    // Unknown extension still falls back to raw text.
    assert_eq!(reg.resolve("mystery.weirdext"), ExtractorKind::PlainText);
}

#[test]
fn known_text_predicate_is_case_insensitive() {
    assert!(Registry::is_known_text("LOG"));
    assert!(Registry::is_known_text("json"));
    assert!(!Registry::is_known_text("pdf"));
}

#[test]
fn default_registry_resolves_enabled_formats() {
    let reg = default_registry();
    assert!(reg.resolve("book.xlsx").extensions().contains(&"xlsx"));
    assert!(reg.resolve("memo.docx").extensions().contains(&"docx"));
    assert!(reg.resolve("report.pdf").extensions().contains(&"pdf"));
    // Plain text is never captured by a binary extractor.
    assert!(reg.resolve("a.log").extensions().contains(&"log"));
}

#[test]
fn resolve_ignores_extension_case_and_directories() {
    let reg = default_registry();
    assert_eq!(reg.resolve("/data/Report.PDF"), ExtractorKind::Pdf);
    assert_eq!(reg.resolve("dir.xlsx/notes.txt"), ExtractorKind::PlainText);
    assert_eq!(reg.resolve("archive/.xlsx"), ExtractorKind::PlainText);
    assert_eq!(reg.resolve("sheets/q3.ods/"), ExtractorKind::Spreadsheet);
    assert_eq!(reg.resolve("noext"), ExtractorKind::PlainText);
}

#[test]
fn later_registration_wins() {
    let mut reg = Registry::with_defaults();
    reg.register(ExtractorKind::Pdf);
    assert_eq!(reg.resolve("a.pdf"), ExtractorKind::Pdf);
    reg.register(ExtractorKind::PlainText);
    assert_eq!(reg.resolve("a.log"), ExtractorKind::PlainText);
    assert_eq!(reg.resolve("a.pdf"), ExtractorKind::Pdf);
    reg.register(ExtractorKind::Docx);
    assert_eq!(reg.resolve("b.docx"), ExtractorKind::Docx);
}

#[test]
fn file_name_takes_the_last_component() {
    assert_eq!(file_name("/var/log/app.log"), Some("app.log"));
    assert_eq!(file_name("logs/"), Some("logs"));
    assert_eq!(file_name("a/b/."), Some("b"));
    assert_eq!(file_name("a/.."), None);
    assert_eq!(file_name("/"), None);
    assert_eq!(file_name(""), None);
}

#[test]
fn extractors_claim_their_extensions() {
    assert_eq!(PlainTextExtractor.extensions().len(), 34);
    assert!(PlainTextExtractor.extensions().contains(&"properties"));
    assert!(matches!(PlainTextExtractor.extract(), Source::Raw));
    assert_eq!(SpreadsheetExtractor.extensions(), vec!["xls", "xlsx", "xlsb", "ods"]);
    assert_eq!(DocxExtractor.extensions(), vec!["docx"]);
    assert_eq!(PdfExtractor.extensions(), vec!["pdf"]);
    let mut reg = Registry::with_defaults();
    reg.register(DocxExtractor.kind());
    assert_eq!(reg.resolve("a.DOCX"), ExtractorKind::Docx);
    assert_eq!(reg.resolve("a.pdf"), PlainTextExtractor.kind());
}
