use semantic_index::chunking::{
    conversion_output, language_path, text_source, text_source_for_extension, uses_markitdown,
    ConversionError, TextSource, MARKITDOWN_EXTENSIONS,
};

#[test]
fn listed_extensions_are_converted() {
    assert_eq!(MARKITDOWN_EXTENSIONS.len(), 39);
    for extension in MARKITDOWN_EXTENSIONS {
        assert!(uses_markitdown(extension));
        assert_eq!(text_source_for_extension(Some(extension)), TextSource::Markitdown);
    }
    assert!(uses_markitdown("docx"));
    assert!(uses_markitdown("eml"));
}

#[test]
fn other_extensions_are_loaded_as_text() {
    assert!(!uses_markitdown("rs"));
    assert!(!uses_markitdown("md"));
    assert!(!uses_markitdown(""));
    assert!(!uses_markitdown("PDF"));
    assert!(!uses_markitdown("pdfx"));
    assert_eq!(text_source_for_extension(Some("rs")), TextSource::PlainText);
    assert_eq!(text_source_for_extension(None), TextSource::PlainText);
}

#[test]
fn source_goes_by_the_extension_of_the_path() {
    assert_eq!(text_source("docs/report.pdf"), TextSource::Markitdown);
    assert_eq!(text_source("docs/report.final.docx"), TextSource::Markitdown);
    assert_eq!(text_source("src/main.rs"), TextSource::PlainText);
    assert_eq!(text_source("Makefile"), TextSource::PlainText);
    assert_eq!(text_source(".pdf"), TextSource::PlainText);
    assert_eq!(text_source("pdf"), TextSource::PlainText);
    assert_eq!(text_source("archive.pdf/notes"), TextSource::PlainText);
    assert_eq!(text_source("a/b.txt"), TextSource::Markitdown);
}

#[test]
fn converted_documents_are_chunked_as_markdown() {
    assert_eq!(language_path("docs/report.pdf", TextSource::Markitdown), "file.md");
    assert_eq!(language_path("src/main.rs", TextSource::PlainText), "src/main.rs");
}

#[test]
fn converter_output_must_be_utf8() {
    assert_eq!(conversion_output(true, "# Títle\n".as_bytes().to_vec(), b""), Ok("# Títle\n".to_string()));
    assert_eq!(conversion_output(true, Vec::new(), b"ignored"), Ok(String::new()));
    assert_eq!(conversion_output(true, vec![0x66, 0xff, 0x6f], b""), Err(ConversionError::InvalidUtf8));
    assert_eq!(conversion_output(true, vec![0xc3], b""), Err(ConversionError::InvalidUtf8));
}

#[test]
fn converter_failure_carries_its_error_output() {
    assert_eq!(
        conversion_output(false, b"partial".to_vec(), b"no such file"),
        Err(ConversionError::Failed("no such file".to_string()))
    );
    assert_eq!(
        conversion_output(false, Vec::new(), &[0x62, 0xff, 0x64]),
        Err(ConversionError::Failed("b\u{fffd}d".to_string()))
    );
}
