//! HTML for a browser view of a document: Markdown with its metadata shown
//! first, org-mode and reStructuredText through their converters, and other
//! text highlighted by syntect when it knows the syntax.
use vstd::prelude::*;

use crate::document::{extract_metadata, metadata_split, pairs_view, Document, Format};
use crate::html::{escaped, html_pre, metadata_html, metadata_to_html};
use crate::pathname::{file_name_of, path_extension, path_extension_of, path_file_name};
use crate::render::{
    bytes_view, utf8_decoded, utf8_string,
};
use crate::text::{chars_of, eq_str, push_all};

use syntect::html::{ClassStyle, ClassedHTMLGenerator};

verus! {

/// The name of the syntax that syntect's default syntax set (the variant
/// for lines with endings) finds for a token taken as a file extension.
pub uninterp spec fn syntax_for(token: Seq<char>) -> Option<Seq<char>>;

/// The highlighted HTML that syntect's `ClassedHTMLGenerator` (classes
/// spaced and prefixed with `syn-`) writes for a source, fed line by line
/// with line endings, in the syntax found for the token.
pub uninterp spec fn highlighted_html(token: Seq<char>, source: Seq<char>) -> Seq<char>;

pub open spec fn opt_chars(o: Option<String>) -> Option<Seq<char>> {
    match o {
        Some(s) => Some(s@),
        None => None,
    }
}

/// `SyntaxSet::load_defaults_newlines` and `find_syntax_by_extension`:
/// the name of the syntax found, named `syntax_for`.
#[verifier::external_body]
fn syntax_name_for(token: &str) -> (r: Option<String>)
    ensures
        opt_chars(r) == syntax_for(token@),
{
    let set = syntect::parsing::SyntaxSet::load_defaults_newlines();
    set.find_syntax_by_extension(token).map(|s| s.name.clone())
}

/// `ClassedHTMLGenerator::new_with_class_style` (spaced, prefix `syn-`) for
/// the syntax found for the token, fed every line of the source with its
/// ending (`LinesWithEndings`), then `finalize`; named `highlighted_html`.
/// `None` when no syntax is found for the token (the same search as
/// `syntax_name_for`).
#[verifier::external_body]
fn highlight(token: &str, source: &str) -> (r: Option<String>)
    ensures
        r is Some == syntax_for(token@) is Some,
        r matches Some(h) ==> h@ == highlighted_html(token@, source@),
{
    let set = syntect::parsing::SyntaxSet::load_defaults_newlines();
    let syntax = set.find_syntax_by_extension(token)?;
    let style = ClassStyle::SpacedPrefixed { prefix: "syn-" };
    let mut generator = ClassedHTMLGenerator::new_with_class_style(syntax, &set, style);
    for line in syntect::util::LinesWithEndings::from(source) {
        let _ = generator.parse_html_for_line_which_includes_newline(line);
    }
    Some(generator.finalize())
}


/// Source shown verbatim, escaped, in `<pre><code>`.
pub open spec fn pre_html(source: Seq<char>) -> Seq<char> {
    "<pre><code>"@ + escaped(source, source.len() as int) + "</code></pre>"@
}

/// The syntax for a path: the one found for its extension, else the one
/// found for its file name; with the token that found it.
pub open spec fn chosen_syntax(path: Seq<char>) -> Option<(Seq<char>, Seq<char>)> {
    let by_name = match file_name_of(path) {
        Some(n) => match syntax_for(n) {
            Some(s) => Some((n, s)),
            None => None,
        },
        None => None,
    };
    match path_extension(path) {
        Some(e) => match syntax_for(e) {
            Some(s) => Some((e, s)),
            None => by_name,
        },
        None => by_name,
    }
}

/// Plain text as HTML: highlighted when a syntax other than "Plain Text"
/// is found for the path, shown verbatim otherwise.
pub open spec fn plain_html(source: Seq<char>, path: Seq<char>) -> Seq<char> {
    match chosen_syntax(path) {
        Some((token, name)) => if name == "Plain Text"@ {
            pre_html(source)
        } else {
            "<pre class=\"syntax-highlight\"><code>"@ + highlighted_html(token, source)
                + "</code></pre>"@
        },
        None => pre_html(source),
    }
}

/// What a converter's HTML output becomes: the HTML when it is UTF-8, the
/// source verbatim when it is not or the converter failed.
pub open spec fn converted_html(html: Option<Seq<u8>>, source: Seq<char>) -> Seq<char> {
    match html {
        Some(b) => match utf8_decoded(b) {
            Some(t) => t,
            None => pre_html(source),
        },
        None => pre_html(source),
    }
}

/// The HTML for a document of the given format, read from `path`; for
/// Markdown, `body` is the HTML written for the content after the
/// metadata block; for org-mode and reStructuredText, `converted` is what
/// their converter wrote.
pub open spec fn document_html(
    format: Format,
    source: Seq<char>,
    path: Seq<char>,
    body: Seq<char>,
    converted: Option<Seq<u8>>,
) -> Seq<char> {
    match format {
        Format::Markdown => metadata_html(metadata_split(source).0) + body,
        Format::OrgMode => converted_html(converted, source),
        Format::ReStructuredText => converted_html(converted, source),
        Format::Plain => plain_html(source, path),
    }
}

fn syntax_by_file_name(path: &str) -> (r: Option<(String, String)>)
    ensures
        match r {
            Some((t, n)) => file_name_of(path@) == Some(t@) && syntax_for(t@) == Some(n@),
            None => match file_name_of(path@) {
                Some(f) => syntax_for(f) is None,
                None => true,
            },
        },
{
    match path_file_name(path) {
        Some(f) => match syntax_name_for(f.as_str()) {
            Some(n) => Some((f, n)),
            None => None,
        },
        None => None,
    }
}

/// Try syntax highlighting via syntect; fall back to plain `<pre>`.
pub fn render_plain(doc: &Document, path: &str) -> (r: String)
    ensures
        r@ == plain_html(doc.source@, path@),
{
    let chosen = match path_extension_of(path) {
        Some(e) => match syntax_name_for(e.as_str()) {
            Some(n) => Some((e, n)),
            None => syntax_by_file_name(path),
        },
        None => syntax_by_file_name(path),
    };
    assert(match chosen {
        Some((t, n)) => chosen_syntax(path@) == Some((t@, n@)),
        None => chosen_syntax(path@) is None,
    });
    match chosen {
        Some((token, name)) => {
            let nc = chars_of(name.as_str());
            if eq_str(nc.as_slice(), "Plain Text") {
                return html_pre(doc.source.as_str());
            }
            let body = match highlight(token.as_str(), doc.source.as_str()) {
                Some(b) => b,
                None => return html_pre(doc.source.as_str()),
            };
            let mut out = String::new();
            let open = chars_of("<pre class=\"syntax-highlight\"><code>");
            push_all(&mut out, open.as_slice());
            let bc = chars_of(body.as_str());
            push_all(&mut out, bc.as_slice());
            let close = chars_of("</code></pre>");
            push_all(&mut out, close.as_slice());
            out
        },
        None => html_pre(doc.source.as_str()),
    }
}

/// The HTML a converter produced, or the source verbatim when it failed or
/// wrote something other than UTF-8.
pub fn converted_or_pre(html: Option<Vec<u8>>, source: &str) -> (r: String)
    ensures
        r@ == converted_html(bytes_view(html), source@),
{
    match html {
        Some(b) => match utf8_string(b) {
            Some(t) => t,
            None => html_pre(source),
        },
        None => html_pre(source),
    }
}

/// The HTML for a document read from `path`. For Markdown, `markdown_body`
/// is the HTML that the Markdown converter wrote for the content after the
/// metadata block (see `extract_metadata`); the metadata comes first.
///
/// For org-mode and reStructuredText, `converted` is what the converter
/// (`orgize`; `rst_parser` with `rst_renderer`) wrote for the source,
/// `None` when it failed; those converters stop the program on some inputs
/// (see `render_document`), so the caller runs them where that can be
/// caught.
pub fn render_to_html(
    doc: &Document,
    path: &str,
    markdown_body: &str,
    converted: Option<Vec<u8>>,
) -> (r: String)
    ensures
        r@ == document_html(doc.format, doc.source@, path@, markdown_body@, bytes_view(converted)),
{
    match doc.format {
        Format::Markdown => {
            let (meta, content) = extract_metadata(doc.source.as_str());
            let meta_html = metadata_to_html(meta.as_slice());
            let mut out = String::new();
            let mc = chars_of(meta_html.as_str());
            push_all(&mut out, mc.as_slice());
            let cc = chars_of(markdown_body);
            push_all(&mut out, cc.as_slice());
            assert(out@ =~= metadata_html(metadata_split(doc.source@).0) + markdown_body@);
            out
        },
        Format::OrgMode => converted_or_pre(converted, doc.source.as_str()),
        Format::ReStructuredText => converted_or_pre(converted, doc.source.as_str()),
        Format::Plain => render_plain(doc, path),
    }
}

} // verus!
