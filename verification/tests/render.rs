use lector::render::{
    decimal_of, list_bullet, render_converted, render_events, render_html_to_lines,
    render_document, render_markdown, Color, Line, MdEvent, MdTag,
    MdTagEnd, Style,
};
use lector::document::Document;

fn text(lines: &[Line]) -> Vec<String> {
    lines.iter().map(|l| l.text()).collect()
}

#[test]
fn nested_list_keeps_outer_numbering() {
    let (lines, _) = render_markdown("1. one\n   - inner\n2. two\n3. three\n");
    let t = text(&lines);
    assert!(t.iter().any(|l| l.starts_with("2. two")), "{t:?}");
    assert!(t.iter().any(|l| l.starts_with("3. three")), "{t:?}");
}

#[test]
fn heading_text_includes_inline_code() {
    let (_, headings) = render_markdown("# The `foo` function\n");
    assert_eq!(headings[0].text, "The foo function");
}

#[test]
fn table_rows_render_on_separate_lines() {
    let (lines, _) = render_markdown("| A | B |\n|---|---|\n| 1 | 2 |\n");
    let t = text(&lines);
    assert!(t.contains(&"A │ B".to_string()), "{t:?}");
    assert!(t.contains(&"1 │ 2".to_string()), "{t:?}");
}

#[test]
fn task_list_markers_are_shown() {
    let (lines, _) = render_markdown("- [x] done\n- [ ] todo\n");
    let t = text(&lines);
    assert!(t.iter().any(|l| l.contains("[x] done")), "{t:?}");
    assert!(t.iter().any(|l| l.contains("[ ] todo")), "{t:?}");
}

#[test]
fn markdown_headings_point_at_their_lines() {
    let (lines, headings) = render_markdown("# One\n\ntext\n\n## Two\n");
    assert_eq!(headings.len(), 2);
    assert_eq!((headings[0].level, headings[0].text.as_str()), (1, "One"));
    assert_eq!((headings[1].level, headings[1].text.as_str()), (2, "Two"));
    let t = text(&lines);
    assert_eq!(t[headings[0].line_index], "One");
    assert_eq!(t[headings[1].line_index], "Two");
    assert!(!headings[0].is_annotation);
}

#[test]
fn events_render_exactly() {
    let events = vec![
        MdEvent::Start(MdTag::Heading(1)),
        MdEvent::Text("Hi".to_string()),
        MdEvent::End(MdTagEnd::Heading),
        MdEvent::Start(MdTag::Paragraph),
        MdEvent::Text("a".to_string()),
        MdEvent::SoftBreak,
        MdEvent::Code("c".to_string()),
        MdEvent::End(MdTagEnd::Paragraph),
        MdEvent::Rule,
        MdEvent::Start(MdTag::CodeBlock),
        MdEvent::Text("x\ny\n".to_string()),
        MdEvent::End(MdTagEnd::CodeBlock),
    ];
    let (lines, headings) = render_events(&events);
    let rule: String = std::iter::repeat('─').take(40).collect();
    assert_eq!(text(&lines), vec!["", "Hi", "a `c`", "", rule.as_str(), "", "  x", "  y"]);
    assert_eq!(headings.len(), 1);
    assert_eq!((headings[0].level, headings[0].text.as_str(), headings[0].line_index), (1, "Hi", 1));
    let h1 = Style::plain().fg(Color::Cyan).bold().underlined();
    assert_eq!(lines[1].spans[0].style, h1);
    assert_eq!(lines[2].spans[2].style, Style::plain().fg(Color::Green));
    assert_eq!(lines[4].style, Style::plain().fg(Color::DarkGray));
}

#[test]
fn html_renders_tags_lists_and_pre() {
    let html = "<H2>Title</H2><p>a &amp; b</p><ul><li>x</li><li>y</li></ul>\
                <ol><li>p</li><li>q</li></ol><pre>l1\nl2</pre>";
    let (lines, headings) = render_html_to_lines(html);
    assert_eq!(
        text(&lines),
        vec!["", "Title", "a & b", "", "• x", "• y", "", "1. p", "2. q", "", "  l1", "  l2"]
    );
    assert_eq!(headings.len(), 1);
    assert_eq!((headings[0].level, headings[0].text.as_str(), headings[0].line_index), (2, "Title", 1));
    assert_eq!(lines[1].spans[0].style, Style::plain().fg(Color::Blue).bold());
}

#[test]
fn html_skips_scripts_and_blank_text() {
    let (lines, _) = render_html_to_lines("<script>var x;</script>  \n <b>bold</b><h5>Five</h5>");
    let t = text(&lines);
    assert_eq!(t, vec!["bold", "", "Five"]);
    assert_eq!(lines[0].spans[0].style, Style::plain().bold());
    assert_eq!(lines[2].spans[0].style, Style::plain().fg(Color::Yellow).bold());
}

#[test]
fn html_blockquote_and_rule() {
    let (lines, _) = render_html_to_lines("<blockquote>q</blockquote><hr>");
    let t = text(&lines);
    assert_eq!(t[0], "│ q");
    assert_eq!(t[1].chars().count(), 40);
    assert_eq!(t[2], "");
}

#[test]
fn bullets_and_ordinals() {
    let mut stack = vec![Some(3), None, Some(7)];
    assert_eq!(list_bullet(&mut stack), "    7. ");
    assert_eq!(stack, vec![Some(3), None, Some(8)]);
    let mut bullets = vec![None];
    assert_eq!(list_bullet(&mut bullets), "• ");
    let mut empty: Vec<Option<u64>> = vec![];
    assert_eq!(list_bullet(&mut empty), "• ");
    assert!(empty.is_empty());
    let mut top = vec![Some(u64::MAX)];
    assert_eq!(list_bullet(&mut top), "18446744073709551615. ");
    assert_eq!(top, vec![Some(0)]);
    assert_eq!(decimal_of(0).iter().collect::<String>(), "0");
    assert_eq!(decimal_of(1234).iter().collect::<String>(), "1234");
}

#[test]
fn converter_output_or_source() {
    let (lines, headings) = render_converted(None, "a\n\nb");
    assert_eq!(text(&lines), vec!["a", "", "b"]);
    assert!(lines[1].spans.is_empty());
    assert!(headings.is_empty());

    let (lines, headings) = render_converted(Some(b"<h1>T</h1>".to_vec()), "src");
    assert_eq!(text(&lines), vec!["", "T"]);
    assert_eq!(headings[0].line_index, 1);

    let (lines, _) = render_converted(Some(vec![0xff, 0xfe]), "x &lt;");
    assert_eq!(text(&lines), vec!["x <"]);
}

#[test]
fn org_and_rst_headings() {
    let org_source = "* Heading\nbody\n";
    let mut org = Vec::new();
    orgize::Org::parse(org_source).write_html(&mut org).unwrap();
    let (_, headings) = render_converted(Some(org), org_source);
    assert!(headings.iter().any(|h| h.text.trim() == "Heading"), "{:?}", headings);
    let source = "Title\n=====\n\nSome text.\n";
    let document = rst_parser::parse(source).unwrap();
    let mut html = Vec::new();
    rst_renderer::render_html(&document, &mut html, false).unwrap();
    let (lines, headings) = render_converted(Some(html), source);
    assert!(headings.iter().any(|h| h.text.trim() == "Title"), "{:?}", headings);
    assert!(text(&lines).iter().any(|l| l.contains("Some text.")));
}

#[test]
fn documents_render_by_format() {
    let plain = Document::from_source("/x/notes.txt", "# not a heading\nsecond\n".to_string());
    let (lines, toc) = render_document(&plain, None);
    assert_eq!(text(&lines), vec!["# not a heading", "second"]);
    assert!(toc.is_empty());
    let md = Document::from_source("/x/notes.md", "# Title\n\nbody\n".to_string());
    let (lines, toc) = render_document(&md, None);
    let (expected, expected_toc) = render_markdown("# Title\n\nbody\n");
    assert_eq!(text(&lines), text(&expected));
    assert_eq!(toc.len(), 1);
    assert_eq!(toc[0].text, expected_toc[0].text);
    assert_eq!(toc[0].text, "Title");
}

#[test]
fn rst_documents_render_what_the_converter_wrote() {
    let source = "Title\n=====\n\nSome text.\n";
    let document = rst_parser::parse(source).unwrap();
    let mut html = Vec::new();
    rst_renderer::render_html(&document, &mut html, false).unwrap();
    let doc = Document::from_source("/x/a.rst", source.to_string());
    let (lines, toc) = render_document(&doc, Some(html));
    assert!(toc.iter().any(|h| h.text.trim() == "Title"), "{:?}", toc);
    assert!(text(&lines).iter().any(|l| l.contains("Some text.")));
    let (lines, toc) = render_document(&doc, None);
    assert_eq!(text(&lines), vec!["Title", "=====", "", "Some text."]);
    assert!(toc.is_empty());
}
