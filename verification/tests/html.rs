use lector::html::{
    decode_html_entities, extract_headings, html_escape, html_pre, metadata_to_html,
    strip_html_tags,
};

#[test]
fn decodes_entities_once() {
    assert_eq!(decode_html_entities("a &amp;lt; b"), "a &lt; b");
    assert_eq!(decode_html_entities("&lt;tag&gt; &#39;x&#x27;"), "<tag> 'x'");
    assert_eq!(decode_html_entities("AT&T & co"), "AT&T & co");
}

#[test]
fn entity_edge_cases() {
    assert_eq!(decode_html_entities("&nbsp;&quot;&apos;"), " \"'");
    assert_eq!(decode_html_entities("&#xD800;&#+65;&#X41;"), "&#xD800;A\u{41}");
    assert_eq!(decode_html_entities("&averyveryverylongname;"), "&averyveryverylongname;");
    assert_eq!(decode_html_entities("&#4294967296;"), "&#4294967296;");
    assert_eq!(decode_html_entities("&;"), "&;");
}

#[test]
fn strips_tags_and_escapes() {
    assert_eq!(strip_html_tags("<b>bold</b> and <i>it</i>"), "bold and it");
    assert_eq!(html_escape("a < b && c > d"), "a &lt; b &amp;&amp; c &gt; d");
    assert_eq!(html_pre("<x>"), "<pre><code>&lt;x&gt;</code></pre>");
}

#[test]
fn metadata_block() {
    assert_eq!(metadata_to_html(&[]), "");
    let meta = vec![("Title".to_string(), "A & B".to_string())];
    assert_eq!(
        metadata_to_html(&meta),
        "<div class=\"doc-meta\"><dl><dt>Title</dt><dd>A &amp; B</dd></dl></div>"
    );
}

#[test]
fn headings_of_rendered_html() {
    let html = "<h1 id=\"heading-intro\">Intro <code>x</code></h1><p>t</p><h2>  </h2><h3 id=\"b\">B</h3>";
    let hs = extract_headings(html);
    assert_eq!(hs.len(), 2);
    assert_eq!((hs[0].level, hs[0].text.as_str(), hs[0].id.as_str()), (1, "Intro x", "heading-intro"));
    assert_eq!((hs[1].level, hs[1].text.as_str(), hs[1].id.as_str()), (3, "B", "b"));
}

#[test]
fn decoding_undoes_escaping() {
    for s in ["a < b && c > d", "&amp;lt; \"q\" 'x'", "plain", "", "<<&&>>"] {
        assert_eq!(decode_html_entities(&html_escape(s)), s);
    }
}

#[test]
fn decoding_undoes_escaping_with_quotes() {
    for t in ["say \"hi\" & <go>", "&quot;", "\"\"", "plain"] {
        let escaped = t.replace('&', "&amp;").replace('<', "&lt;").replace('>', "&gt;").replace('"', "&quot;");
        assert_eq!(decode_html_entities(&escaped), t);
    }
}
