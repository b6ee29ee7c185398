use lector::document::{Document, Format};
use lector::web::{converted_or_pre, render_plain, render_to_html};

#[test]
fn markdown_page_has_metadata_first() {
    let doc = Document { format: Format::Markdown, source: "Title: T\n\n# x\n".to_string() };
    assert_eq!(
        render_to_html(&doc, "post.md", "<h1>x</h1>", None),
        "<div class=\"doc-meta\"><dl><dt>Title</dt><dd>T</dd></dl></div><h1>x</h1>"
    );
    let plain = Document { format: Format::Markdown, source: "# x\n".to_string() };
    assert_eq!(render_to_html(&plain, "post.md", "<h1>x</h1>", None), "<h1>x</h1>");
}

#[test]
fn unknown_text_is_shown_verbatim() {
    let doc = Document { format: Format::Plain, source: "a < b".to_string() };
    assert_eq!(render_plain(&doc, "notes.zzzz-unknown"), "<pre><code>a &lt; b</code></pre>");
    assert_eq!(render_to_html(&doc, "notes.txt", "", None), "<pre><code>a &lt; b</code></pre>");
}

#[test]
fn known_syntax_is_highlighted() {
    let doc = Document { format: Format::Plain, source: "fn main() {}\n".to_string() };
    let html = render_plain(&doc, "src/main.rs");
    assert!(html.starts_with("<pre class=\"syntax-highlight\"><code>"), "{html}");
    assert!(html.contains("syn-"), "{html}");
    assert!(html.ends_with("</code></pre>"));
}

#[test]
fn converters_fall_back_to_source() {
    assert_eq!(converted_or_pre(None, "<x>"), "<pre><code>&lt;x&gt;</code></pre>");
    assert_eq!(converted_or_pre(Some(b"<p>ok</p>".to_vec()), "s"), "<p>ok</p>");
    assert_eq!(converted_or_pre(Some(vec![0xc3]), "s"), "<pre><code>s</code></pre>");
    let org = Document { format: Format::OrgMode, source: "* H\n".to_string() };
    let mut converted = Vec::new();
    orgize::Org::parse("* H\n").write_html(&mut converted).unwrap();
    let html = render_to_html(&org, "a.org", "", Some(converted));
    assert!(html.contains("H") && !html.starts_with("<pre>"), "{html}");
}
