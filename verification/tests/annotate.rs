use lector::annotate::{line_note, refresh_toc_entries, Annotation};
use lector::render::{render_markdown, TocHeading};

fn note(start_line: u32, selected: &str, comment: &str) -> Annotation {
    Annotation {
        id: 1,
        file_path: "/a.md".to_string(),
        start_line,
        start_col: 0,
        end_line: start_line,
        end_col: 3,
        selected_text: selected.to_string(),
        comment: comment.to_string(),
        color: "yellow".to_string(),
    }
}

#[test]
fn annotations_replace_earlier_annotation_entries() {
    let mut toc = vec![
        TocHeading { level: 1, text: "A".to_string(), line_index: 1, is_annotation: false },
        TocHeading { level: 0, text: "old".to_string(), line_index: 4, is_annotation: true },
        TocHeading { level: 2, text: "B".to_string(), line_index: 6, is_annotation: false },
    ];
    refresh_toc_entries(&mut toc, &[note(7, "sel", ""), note(2, "x", "my note")]);
    let got: Vec<(u8, &str, usize, bool)> =
        toc.iter().map(|h| (h.level, h.text.as_str(), h.line_index, h.is_annotation)).collect();
    assert_eq!(
        got,
        vec![
            (1, "A", 1, false),
            (2, "B", 6, false),
            (0, "📝 sel", 7, true),
            (0, "📝 my note", 2, true),
        ]
    );
}

#[test]
fn line_notes_cover_the_rendered_line() {
    let (lines, _) = render_markdown("héllo *there*\n");
    let n = line_note(&lines, 0);
    assert_eq!(n.text, "héllo there");
    assert_eq!((n.start_line, n.start_col, n.end_line, n.end_col), (0, 0, 0, 12));
    let missing = line_note(&lines, 99);
    assert_eq!(missing.text, "");
    assert_eq!((missing.start_line, missing.end_col), (99, 0));
}

#[test]
fn refreshing_twice_changes_nothing_more() {
    let mut toc = vec![
        TocHeading { level: 1, text: "A".to_string(), line_index: 1, is_annotation: false },
        TocHeading { level: 0, text: "old".to_string(), line_index: 4, is_annotation: true },
    ];
    let notes = [note(3, "sel", "c")];
    refresh_toc_entries(&mut toc, &notes);
    let once: Vec<(u8, String, usize, bool)> =
        toc.iter().map(|h| (h.level, h.text.clone(), h.line_index, h.is_annotation)).collect();
    refresh_toc_entries(&mut toc, &notes);
    let twice: Vec<(u8, String, usize, bool)> =
        toc.iter().map(|h| (h.level, h.text.clone(), h.line_index, h.is_annotation)).collect();
    assert_eq!(once, twice);
    assert_eq!(once.len(), 2);
}
