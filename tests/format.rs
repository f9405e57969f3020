use harper_core::FstDictionary;
use harper_ingest::error::LoadError;
use harper_ingest::format::{build_document, detect_format, format_for_extension, FileFormat};

#[test]
fn dispatch_table() {
    assert_eq!(detect_format("notes.md"), FileFormat::Markdown);
    assert_eq!(detect_format("book.lhs"), FileFormat::LiterateHaskell);
    assert_eq!(detect_format("doc.typ"), FileFormat::Typst);
    assert_eq!(detect_format("main.py"), FileFormat::SourceComments);
    assert_eq!(detect_format("file.unknownext"), FileFormat::SourceComments);
}

#[test]
fn extension_match_is_case_sensitive() {
    assert_eq!(detect_format("NOTES.MD"), FileFormat::SourceComments);
    assert_eq!(detect_format("a/b/Doc.Typ"), FileFormat::SourceComments);
}

#[test]
fn no_extension_falls_back() {
    assert_eq!(detect_format("Makefile"), FileFormat::SourceComments);
    assert_eq!(detect_format(".md"), FileFormat::SourceComments);
    assert_eq!(detect_format("dir.md/.."), FileFormat::SourceComments);
}

#[test]
fn last_extension_decides() {
    assert_eq!(detect_format("/tmp/archive.typ.md"), FileFormat::Markdown);
    assert_eq!(detect_format("notes.md.bak"), FileFormat::SourceComments);
}

#[test]
fn extension_table_directly() {
    assert_eq!(format_for_extension(&Some(vec!['m', 'd'])), FileFormat::Markdown);
    assert_eq!(format_for_extension(&Some(vec!['l', 'h', 's'])), FileFormat::LiterateHaskell);
    assert_eq!(format_for_extension(&Some(vec!['t', 'y', 'p'])), FileFormat::Typst);
    assert_eq!(format_for_extension(&Some(vec!['m'])), FileFormat::SourceComments);
    assert_eq!(format_for_extension(&None), FileFormat::SourceComments);
}

#[test]
fn markdown_tokens_are_ordered_and_disjoint() {
    let text = "This is a test. It has two sentences.\n";
    let dict = FstDictionary::curated();
    let doc = build_document(text, FileFormat::Markdown, &*dict).expect("document");
    let source: Vec<char> = text.chars().collect();
    assert_eq!(doc.get_source(), &source[..]);
    let mut at = 0;
    for tok in doc.get_tokens().iter().filter(|t| t.span.start < t.span.end) {
        assert_eq!(tok.span.start, at);
        at = tok.span.end;
    }
    assert_eq!(at, source.len() - 1);
}

#[test]
fn typst_document_is_built() {
    let dict = FstDictionary::curated();
    assert!(build_document("= Heading\nSome words here.\n", FileFormat::Typst, &*dict).is_some());
}

#[test]
fn other_formats_are_left_to_caller() {
    let dict = FstDictionary::curated();
    assert!(build_document("text", FileFormat::LiterateHaskell, &*dict).is_none());
    assert!(build_document("text", FileFormat::SourceComments, &*dict).is_none());
}

#[test]
fn error_messages() {
    assert_eq!(LoadError::FormatUnrecognized.message(), "Could not detect language ID");
    assert_eq!(LoadError::SourceReadFailed("missing".to_string()).message(), "missing");
    assert_eq!(LoadError::DictionaryReadFailed("denied".to_string()).message(), "denied");
}

#[test]
fn built_documents_hold_their_source() {
    let dict = FstDictionary::curated();
    for (text, format) in [("Some *words* here.", FileFormat::Markdown), ("= Title\nBody text.", FileFormat::Typst)] {
        let doc = build_document(text, format, &*dict).expect("document");
        let source: Vec<char> = text.chars().collect();
        assert_eq!(doc.get_source(), &source[..]);
    }
}

#[test]
fn markdown_document_is_harpers_markdown_document() {
    let dict = FstDictionary::curated();
    let text = "A short *note* with `code`.\n\nSecond paragraph.";
    let ours = build_document(text, FileFormat::Markdown, &*dict).expect("document");
    let theirs = harper_core::Document::new(text, &harper_core::parsers::Markdown::default(), &*dict);
    assert_eq!(ours.get_tokens(), theirs.get_tokens());
}

#[test]
fn typst_document_is_harpers_typst_document() {
    let dict = FstDictionary::curated();
    let text = "= Heading\nSome *strong* words.";
    let ours = build_document(text, FileFormat::Typst, &*dict).expect("document");
    let theirs = harper_core::Document::new(text, &harper_typst::Typst, &*dict);
    assert_eq!(ours.get_tokens(), theirs.get_tokens());
}
