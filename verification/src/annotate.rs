//! Annotations on a rendered document: the entries they add to the table
//! of contents, and what a new annotation of a rendered line records.
use vstd::prelude::*;

use crate::html::{char_utf8_len, utf8_len};
use crate::render::{line_text, spans_view, toc_heading_view, tocs_view, Line, TocHeading, TocView};
use crate::text::{chars_of, push_all, string_push};

verus! {

/// A text annotation anchored to a line+column range in a file.
#[derive(Debug, Clone)]
pub struct Annotation {
    pub id: i64,
    pub file_path: String,
    pub start_line: u32,
    pub start_col: u32,
    pub end_line: u32,
    pub end_col: u32,
    pub selected_text: String,
    pub comment: String,
    pub color: String,
}

/// The label of an annotation in the table of contents: a note marker,
/// a space, then its comment, or the selected text when there is no comment.
pub open spec fn annotation_label(a: Annotation) -> Seq<char> {
    seq!['📝', ' '] + if a.comment@.len() == 0 {
        a.selected_text@
    } else {
        a.comment@
    }
}

/// The table of contents entry of an annotation: level 0, at its first
/// line.
pub open spec fn annotation_entry(a: Annotation) -> TocView {
    TocView {
        level: 0,
        text: annotation_label(a),
        line_index: a.start_line as int,
        is_annotation: true,
    }
}

/// The headings that are not annotations, in order.
pub open spec fn headings_only(hs: Seq<TocView>) -> Seq<TocView>
    decreases hs.len(),
{
    if hs.len() == 0 {
        seq![]
    } else if hs.last().is_annotation {
        headings_only(hs.drop_last())
    } else {
        headings_only(hs.drop_last()).push(hs.last())
    }
}

/// A table of contents with its annotation entries replaced by those of
/// `annotations`, which follow the headings in their order.
pub open spec fn with_annotations(hs: Seq<TocView>, annotations: Seq<Annotation>) -> Seq<TocView> {
    headings_only(hs) + annotations.map_values(|a: Annotation| annotation_entry(a))
}

/// Replace the annotation entries of a table of contents by those of the
/// given annotations (as loaded for the current file).
pub fn refresh_toc_entries(toc: &mut Vec<TocHeading>, annotations: &[Annotation])
    ensures
        tocs_view(final(toc)@) == with_annotations(tocs_view(old(toc)@), annotations@),
{
    let ghost hv = tocs_view(toc@);
    let mut old_toc: Vec<TocHeading> = Vec::new();
    std::mem::swap(&mut old_toc, toc);
    let mut rest = old_toc;
    let ghost mut taken: int = 0;
    while rest.len() > 0
        invariant
            0 <= taken <= hv.len(),
            tocs_view(rest@) == hv.skip(taken),
            tocs_view(toc@) == headings_only(hv.take(taken)),
        decreases rest@.len(),
    {
        let ghost r0 = rest@;
        let ghost t0 = toc@;
        let h = rest.remove(0);
        proof {
            assert(tocs_view(rest@) =~= tocs_view(r0).skip(1));
            assert(hv.skip(taken).skip(1) =~= hv.skip(taken + 1));
            assert(tocs_view(r0)[0] == toc_heading_view(r0[0]));
            assert(hv.skip(taken)[0] == hv[taken]);
            assert(hv.take(taken + 1).drop_last() =~= hv.take(taken));
        }
        if !h.is_annotation {
            toc.push(h);
            assert(tocs_view(toc@) =~= tocs_view(t0).push(hv[taken]));
        }
        proof {
            taken = taken + 1;
        }
    }
    proof {
        assert(hv.take(taken) =~= hv);
    }
    let ghost base = tocs_view(toc@);
    let mut i: usize = 0;
    while i < annotations.len()
        invariant
            i <= annotations@.len(),
            base == headings_only(hv),
            tocs_view(toc@) == base + annotations@.take(i as int).map_values(
                |a: Annotation| annotation_entry(a),
            ),
        decreases annotations@.len() - i,
    {
        let a = &annotations[i];
        let mut text = String::new();
        string_push(&mut text, '📝');
        string_push(&mut text, ' ');
        let body = if a.comment.as_str().unicode_len() == 0 {
            chars_of(a.selected_text.as_str())
        } else {
            chars_of(a.comment.as_str())
        };
        push_all(&mut text, body.as_slice());
        assert(text@ =~= annotation_label(*a));
        let ghost t0 = toc@;
        toc.push(TocHeading { level: 0, text, line_index: a.start_line as usize, is_annotation: true });
        proof {
            let f = |a: Annotation| annotation_entry(a);
            assert(annotations@.take(i + 1).map_values(f) =~= annotations@.take(i as int).map_values(f).push(
                annotation_entry(*a),
            ));
            assert(tocs_view(toc@) =~= tocs_view(t0).push(annotation_entry(*a)));
        }
        i = i + 1;
    }
    proof {
        assert(annotations@.take(i as int) =~= annotations@);
    }
}

/// What annotating a rendered line records: the line's number as the start
/// and end line (truncated to 32 bits), columns from 0 to the UTF-8 length
/// of its text (truncated likewise), and the text itself (empty when there
/// is no such line).
pub struct LineNote {
    pub start_line: u32,
    pub start_col: u32,
    pub end_line: u32,
    pub end_col: u32,
    pub text: String,
}

pub open spec fn line_note_text(lines: Seq<Line>, line: int) -> Seq<char> {
    if 0 <= line < lines.len() {
        line_text(spans_view(lines[line].spans@))
    } else {
        seq![]
    }
}

/// The span an annotation of a rendered line covers.
pub fn line_note(lines: &[Line], line: usize) -> (r: LineNote)
    ensures
        r.text@ == line_note_text(lines@, line as int),
        r.start_line == line as u32,
        r.end_line == line as u32,
        r.start_col == 0,
        r.end_col as int == utf8_len(r.text@) % 0x1_0000_0000,
{
    let text = if line < lines.len() {
        lines[line].text()
    } else {
        String::new()
    };
    let tc = chars_of(text.as_str());
    let mut n: u32 = 0;
    let mut i: usize = 0;
    assert(tc@.take(0).len() == 0);
    while i < tc.len()
        invariant
            i <= tc@.len(),
            n as int == utf8_len(tc@.take(i as int)) % 0x1_0000_0000,
        decreases tc@.len() - i,
    {
        let c = tc[i];
        let w: u32 = if (c as u32) < 0x80 {
            1
        } else if (c as u32) < 0x800 {
            2
        } else if (c as u32) < 0x10000 {
            3
        } else {
            4
        };
        assert(tc@.take(i + 1).drop_last() =~= tc@.take(i as int));
        assert(w as int == char_utf8_len(c));
        proof {
            let a = utf8_len(tc@.take(i as int));
            assert(utf8_len(tc@.take(i + 1)) == a + w);
            vstd::arithmetic::div_mod::lemma_add_mod_noop(a, w as int, 0x1_0000_0000);
            vstd::arithmetic::div_mod::lemma_small_mod(w as nat, 0x1_0000_0000);
        }
        n = n.wrapping_add(w);
        i = i + 1;
    }
    assert(tc@.take(i as int) =~= tc@);
    LineNote {
        start_line: line as u32,
        start_col: 0,
        end_line: line as u32,
        end_col: n,
        text,
    }
}


proof fn lemma_headings_only_concat(a: Seq<TocView>, b: Seq<TocView>)
    requires
        forall|i: int| 0 <= i < b.len() ==> (#[trigger] b[i]).is_annotation,
    ensures
        headings_only(a + b) == headings_only(a),
    decreases b.len(),
{
    if b.len() > 0 {
        assert((a + b).drop_last() =~= a + b.drop_last());
        assert((a + b).last() == b.last());
        lemma_headings_only_concat(a, b.drop_last());
    } else {
        assert(a + b =~= a);
    }
}

proof fn lemma_headings_only_twice(hs: Seq<TocView>)
    ensures
        headings_only(headings_only(hs)) == headings_only(hs),
        forall|i: int| 0 <= i < headings_only(hs).len() ==> !(#[trigger] headings_only(hs)[i]).is_annotation,
    decreases hs.len(),
{
    if hs.len() > 0 {
        lemma_headings_only_twice(hs.drop_last());
        let h = headings_only(hs.drop_last());
        if !hs.last().is_annotation {
            assert(h.push(hs.last()).drop_last() =~= h);
            assert forall|i: int| 0 <= i < h.push(hs.last()).len() implies !(#[trigger] h.push(
                hs.last(),
            )[i]).is_annotation by {
                if i < h.len() {
                    assert(h.push(hs.last())[i] == h[i]);
                }
            }
        }
    }
}

/// Refreshing the annotation entries twice with the same annotations gives
/// the same table of contents as refreshing once.
pub proof fn lemma_refresh_twice(hs: Seq<TocView>, annotations: Seq<Annotation>)
    ensures
        with_annotations(with_annotations(hs, annotations), annotations) == with_annotations(
            hs,
            annotations,
        ),
{
    let entries = annotations.map_values(|a: Annotation| annotation_entry(a));
    lemma_headings_only_concat(headings_only(hs), entries);
    lemma_headings_only_twice(hs);
}

} // verus!
