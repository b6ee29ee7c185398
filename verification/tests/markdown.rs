use lector::document::{extract_metadata, Document, Format};

#[test]
fn extracts_pelican_metadata() {
    let source = "Title: My Post\nDate: 2024-01-01\nTags: foo, bar\n\n# Content\n";
    let (meta, content) = extract_metadata(source);
    assert_eq!(meta.len(), 3);
    assert_eq!(meta[0], ("Title".to_string(), "My Post".to_string()));
    assert_eq!(meta[1], ("Date".to_string(), "2024-01-01".to_string()));
    assert_eq!(content, "# Content\n");
}

#[test]
fn no_metadata_returns_full_source() {
    let source = "# Just a heading\n\nSome text.\n";
    let (meta, content) = extract_metadata(source);
    assert!(meta.is_empty());
    assert_eq!(content, source);
}

#[test]
fn metadata_with_no_content() {
    let source = "Title: Only meta\n\n";
    let (meta, content) = extract_metadata(source);
    assert_eq!(meta.len(), 1);
    assert!(content.is_empty());
}

#[test]
fn metadata_values_are_trimmed_and_keys_checked() {
    let (meta, content) = extract_metadata("My-Key_2:   spaced value  \n\nbody");
    assert_eq!(meta, vec![("My-Key_2".to_string(), "spaced value".to_string())]);
    assert_eq!(content, "body");
    let (meta, content) = extract_metadata("Title: x\nbody");
    assert!(meta.is_empty());
    assert_eq!(content, "Title: x\nbody");
    let (meta, content) = extract_metadata("Bad key: value\n\ntext");
    assert!(meta.is_empty());
    assert_eq!(content, "Bad key: value\n\ntext");
    let (meta, content) = extract_metadata("Title: x");
    assert_eq!(meta.len(), 1);
    assert_eq!(content, "");
}

#[test]
fn format_detection() {
    assert_eq!(Format::from_path("notes/readme.md"), Format::Markdown);
    assert_eq!(Format::from_path("a.markdown"), Format::Markdown);
    assert_eq!(Format::from_path("guide.rst"), Format::ReStructuredText);
    assert_eq!(Format::from_path("todo.org"), Format::OrgMode);
    assert_eq!(Format::from_path("Makefile"), Format::Plain);
    assert_eq!(Format::from_extension(Some("rest")), Format::ReStructuredText);
    let d = Document::from_source("x.mdx", "hi".to_string());
    assert_eq!(d.format, Format::Markdown);
    assert_eq!(d.source, "hi");
}

#[test]
fn parses_basic_markdown() {
    let events = lector::document::parser("# Hello\n\nWorld");
    assert!(!events.is_empty());
}

#[test]
fn parses_gfm_tables() {
    let md = "| A | B |\n|---|---|\n| 1 | 2 |";
    let events = lector::document::parser(md);
    assert!(!events.is_empty());
    assert!(events
        .iter()
        .any(|e| matches!(e, lector::render::MdEvent::Start(lector::render::MdTag::TableCell))));
}

#[test]
fn metadata_with_crlf_line_endings() {
    let (meta, content) = extract_metadata("Title: x\r\n\r\nBody");
    assert_eq!(meta, vec![("Title".to_string(), "x".to_string())]);
    assert_eq!(content, "Body");
    let (_, content) = extract_metadata("A: 1\r\nB: 2\r\n\r\n# H\r\n");
    assert_eq!(content, "# H\r\n");
}
