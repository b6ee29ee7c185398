//! Rendering documents as styled lines of text for a terminal: Markdown
//! from parser events, and org-mode and reStructuredText through the HTML
//! their converters write.
use vstd::prelude::*;

use pulldown_cmark::{Event, Tag, TagEnd};

use crate::document::{Document, Format};
use crate::html::{decode_from, decode_html_entities};
use crate::text::{
    char_is_whitespace, chars_of, eq_str, is_ws, lemma_span_bounds, lines, lowercased, push_all,
    slice_of, span, span_from, split_lines, starts_with, starts_with_str, string_of, string_push,
    to_lowercase, trim, trim_of, CharClass,
};

verus! {

// ---------------------------------------------------------------------------
// Styled text
// ---------------------------------------------------------------------------
/// Foreground colours used by the renderer.
#[derive(Clone, Copy, Debug, PartialEq, Eq, Structural)]
pub enum Color {
    Red,
    Green,
    Yellow,
    Blue,
    Magenta,
    Cyan,
    White,
    DarkGray,
}

/// How text is drawn: a foreground colour (none: the terminal's) and the
/// modifiers that are on.
#[derive(Clone, Copy, Debug, PartialEq, Eq, Structural)]
pub struct Style {
    pub fg: Option<Color>,
    pub bold: bool,
    pub italic: bool,
    pub underlined: bool,
    pub crossed_out: bool,
}

/// The style with no colour and no modifier.
pub open spec fn plain_style() -> Style {
    Style { fg: None, bold: false, italic: false, underlined: false, crossed_out: false }
}

pub open spec fn with_fg(s: Style, c: Color) -> Style {
    Style { fg: Some(c), ..s }
}

pub open spec fn with_bold(s: Style) -> Style {
    Style { bold: true, ..s }
}

pub open spec fn with_italic(s: Style) -> Style {
    Style { italic: true, ..s }
}

pub open spec fn with_underline(s: Style) -> Style {
    Style { underlined: true, ..s }
}

pub open spec fn with_crossed_out(s: Style) -> Style {
    Style { crossed_out: true, ..s }
}

impl Style {
    /// No colour, no modifier.
    pub fn plain() -> (r: Style)
        ensures
            r == plain_style(),
    {
        Style { fg: None, bold: false, italic: false, underlined: false, crossed_out: false }
    }

    /// The same style drawn in colour `c`.
    pub fn fg(self, c: Color) -> (r: Style)
        ensures
            r == with_fg(self, c),
    {
        Style { fg: Some(c), ..self }
    }

    /// The same style, bold.
    pub fn bold(self) -> (r: Style)
        ensures
            r == with_bold(self),
    {
        Style { bold: true, ..self }
    }

    /// The same style, italic.
    pub fn italic(self) -> (r: Style)
        ensures
            r == with_italic(self),
    {
        Style { italic: true, ..self }
    }

    /// The same style, underlined.
    pub fn underlined(self) -> (r: Style)
        ensures
            r == with_underline(self),
    {
        Style { underlined: true, ..self }
    }

    /// The same style, crossed out.
    pub fn crossed_out(self) -> (r: Style)
        ensures
            r == with_crossed_out(self),
    {
        Style { crossed_out: true, ..self }
    }
}

/// A piece of text in one style.
#[derive(Debug)]
pub struct Span {
    pub content: String,
    pub style: Style,
}

/// A line of styled pieces, with a style for the whole line.
#[derive(Debug)]
pub struct Line {
    pub spans: Vec<Span>,
    pub style: Style,
}

pub struct LineView {
    pub spans: Seq<(Seq<char>, Style)>,
    pub style: Style,
}

pub open spec fn span_view(s: Span) -> (Seq<char>, Style) {
    (s.content@, s.style)
}

pub open spec fn spans_view(v: Seq<Span>) -> Seq<(Seq<char>, Style)> {
    v.map_values(|s: Span| span_view(s))
}

pub open spec fn line_view(l: Line) -> LineView {
    LineView { spans: spans_view(l.spans@), style: l.style }
}

pub open spec fn lines_view(v: Seq<Line>) -> Seq<LineView> {
    v.map_values(|l: Line| line_view(l))
}

/// The empty line.
pub open spec fn blank_line() -> LineView {
    LineView { spans: seq![], style: plain_style() }
}

/// The horizontal rule: forty box-drawing dashes in dark grey.
pub open spec fn rule_line() -> LineView {
    LineView {
        spans: seq![(Seq::new(40, |i: int| '─'), plain_style())],
        style: with_fg(plain_style(), Color::DarkGray),
    }
}

/// The text of a line, its pieces joined.
pub open spec fn line_text(spans: Seq<(Seq<char>, Style)>) -> Seq<char>
    decreases spans.len(),
{
    if spans.len() == 0 {
        seq![]
    } else {
        line_text(spans.drop_last()) + spans.last().0
    }
}

impl Line {
    /// The text of the line, its pieces joined.
    pub fn text(&self) -> (r: String)
        ensures
            r@ == line_text(spans_view(self.spans@)),
    {
        let mut out = String::new();
        let mut i: usize = 0;
        while i < self.spans.len()
            invariant
                i <= self.spans@.len(),
                out@ == line_text(spans_view(self.spans@).take(i as int)),
            decreases self.spans@.len() - i,
        {
            let c = chars_of(self.spans[i].content.as_str());
            push_all(&mut out, c.as_slice());
            proof {
                let sv = spans_view(self.spans@);
                assert(sv.take(i + 1).drop_last() =~= sv.take(i as int));
            }
            i = i + 1;
        }
        proof {
            assert(spans_view(self.spans@).take(i as int) =~= spans_view(self.spans@));
        }
        out
    }
}

fn blank() -> (r: Line)
    ensures
        line_view(r) == blank_line(),
{
    let r = Line { spans: Vec::new(), style: Style::plain() };
    assert(spans_view(r.spans@) =~= seq![]);
    r
}

fn rule() -> (r: Line)
    ensures
        line_view(r) == rule_line(),
{
    let mut s = String::new();
    let mut i: usize = 0;
    while i < 40
        invariant
            i <= 40,
            s@ == Seq::new(i as nat, |k: int| '─'),
        decreases 40 - i,
    {
        string_push(&mut s, '─');
        i = i + 1;
        assert(s@ =~= Seq::new(i as nat, |k: int| '─'));
    }
    let mut spans: Vec<Span> = Vec::new();
    spans.push(Span { content: s, style: Style::plain() });
    let r = Line { spans, style: Style::plain().fg(Color::DarkGray) };
    assert(spans_view(r.spans@) =~= seq![(Seq::new(40, |k: int| '─'), plain_style())]);
    r
}

// ---------------------------------------------------------------------------
// Numbers and bullets
// ---------------------------------------------------------------------------
pub open spec fn digit_char(d: nat) -> char {
    if d == 0 { '0' } else if d == 1 { '1' } else if d == 2 { '2' } else if d == 3 { '3' }
    else if d == 4 { '4' } else if d == 5 { '5' } else if d == 6 { '6' } else if d == 7 { '7' }
    else if d == 8 { '8' } else { '9' }
}

/// The decimal digits of `n`, most significant first.
pub open spec fn decimal(n: nat) -> Seq<char>
    decreases n,
{
    if n < 10 {
        seq![digit_char(n)]
    } else {
        decimal(n / 10).push(digit_char(n % 10))
    }
}

fn digit_of(d: u64) -> (c: char)
    requires
        d < 10,
    ensures
        c == digit_char(d as nat),
{
    if d == 0 { '0' } else if d == 1 { '1' } else if d == 2 { '2' } else if d == 3 { '3' }
    else if d == 4 { '4' } else if d == 5 { '5' } else if d == 6 { '6' } else if d == 7 { '7' }
    else if d == 8 { '8' } else { '9' }
}

/// `n` written in decimal.
pub fn decimal_of(n: u64) -> (r: Vec<char>)
    ensures
        r@ == decimal(n as nat),
    decreases n,
{
    if n < 10 {
        let mut r = Vec::new();
        r.push(digit_of(n));
        r
    } else {
        let mut r = decimal_of(n / 10);
        r.push(digit_of(n % 10));
        r
    }
}

/// The prefix of a list item at the given nesting: two spaces per level
/// below the first, then the ordinal and a dot for a numbered list, or a
/// bullet.
pub open spec fn bullet_text(depth: nat, ordinal: Option<u64>) -> Seq<char> {
    crate::tree::indentation(if depth > 0 { (depth - 1) as nat } else { 0 }) + match ordinal {
        Some(n) => decimal(n as nat) + seq!['.', ' '],
        None => seq!['•', ' '],
    }
}

/// What starting a list item does to the open lists: the innermost
/// numbered list's counter moves on (wrapping at the top of `u64`).
pub open spec fn lists_after_item(lists: Seq<Option<u64>>) -> Seq<Option<u64>> {
    if lists.len() > 0 && lists.last() is Some {
        lists.update(lists.len() - 1, Some(((lists.last()->0 + 1) % 0x1_0000_0000_0000_0000) as u64))
    } else {
        lists
    }
}

/// The bullet for a new item of the innermost open list (none open: a
/// bullet at the outermost level).
pub open spec fn item_bullet(lists: Seq<Option<u64>>) -> Seq<char> {
    bullet_text(
        lists.len(),
        if lists.len() > 0 {
            lists.last()
        } else {
            None
        },
    )
}

/// Produce the bullet (or ordinal) for a new list item, advancing the
/// innermost ordered list's counter.
pub fn list_bullet(list_stack: &mut Vec<Option<u64>>) -> (r: String)
    ensures
        r@ == item_bullet(old(list_stack)@),
        final(list_stack)@ == lists_after_item(old(list_stack)@),
{
    let n = list_stack.len();
    let mut s = String::new();
    let mut k: usize = 1;
    while k < n
        invariant
            1 <= k,
            n > 0 ==> k <= n,
            n == 0 ==> k == 1,
            s@ == crate::tree::indentation((k - 1) as nat),
        decreases n - k,
    {
        string_push(&mut s, ' ');
        string_push(&mut s, ' ');
        k = k + 1;
        assert(s@ =~= crate::tree::indentation((k - 1) as nat));
    }
    assert(s@ == crate::tree::indentation(if n > 0 { (n - 1) as nat } else { 0 }));
    if n > 0 {
        match list_stack[n - 1] {
            Some(idx) => {
                let digits = decimal_of(idx);
                push_all(&mut s, digits.as_slice());
                string_push(&mut s, '.');
                string_push(&mut s, ' ');
                list_stack.set(n - 1, Some(idx.wrapping_add(1)));
                assert(s@ =~= item_bullet(old(list_stack)@));
                return s;
            },
            None => {},
        }
    }
    string_push(&mut s, '•');
    string_push(&mut s, ' ');
    assert(s@ =~= item_bullet(old(list_stack)@));
    s
}


// ---------------------------------------------------------------------------
// Headings
// ---------------------------------------------------------------------------
/// A heading extracted during rendering, with its position in the output lines.
#[derive(Debug)]
pub struct TocHeading {
    pub level: u8,
    pub text: String,
    pub line_index: usize,
    pub is_annotation: bool,
}

pub struct TocView {
    pub level: u8,
    pub text: Seq<char>,
    pub line_index: int,
    pub is_annotation: bool,
}

pub open spec fn toc_heading_view(h: TocHeading) -> TocView {
    TocView { level: h.level, text: h.text@, line_index: h.line_index as int, is_annotation: h.is_annotation }
}

pub open spec fn tocs_view(v: Seq<TocHeading>) -> Seq<TocView> {
    v.map_values(|h: TocHeading| toc_heading_view(h))
}

/// The style of a heading of the given level.
pub open spec fn heading_style(level: u8) -> Style {
    if level == 1 {
        with_underline(with_bold(with_fg(plain_style(), Color::Cyan)))
    } else if level == 2 {
        with_bold(with_fg(plain_style(), Color::Blue))
    } else if level == 3 {
        with_bold(with_fg(plain_style(), Color::Magenta))
    } else if level == 4 {
        with_bold(with_fg(plain_style(), Color::Yellow))
    } else {
        with_bold(plain_style())
    }
}

fn heading_style_of(level: u8) -> (r: Style)
    ensures
        r == heading_style(level),
{
    if level == 1 {
        Style::plain().fg(Color::Cyan).bold().underlined()
    } else if level == 2 {
        Style::plain().fg(Color::Blue).bold()
    } else if level == 3 {
        Style::plain().fg(Color::Magenta).bold()
    } else if level == 4 {
        Style::plain().fg(Color::Yellow).bold()
    } else {
        Style::plain().bold()
    }
}

// ---------------------------------------------------------------------------
// The renderer's state
// ---------------------------------------------------------------------------
/// Where a renderer stands: the finished lines, the pieces of the line being
/// built, the open styles (innermost last), whether it is inside a code
/// block, the open lists (each with its next ordinal, or none for bullets),
/// whether text is being skipped, the headings found, and the heading being
/// read.
pub struct RenderView {
    pub lines: Seq<LineView>,
    pub spans: Seq<(Seq<char>, Style)>,
    pub styles: Seq<Style>,
    pub in_block: bool,
    pub lists: Seq<Option<u64>>,
    pub skip: bool,
    pub headings: Seq<TocView>,
    pub heading: Option<(u8, Seq<char>)>,
}

pub open spec fn start_view() -> RenderView {
    RenderView {
        lines: seq![],
        spans: seq![],
        styles: seq![plain_style()],
        in_block: false,
        lists: seq![],
        skip: false,
        headings: seq![],
        heading: None,
    }
}

/// The innermost open style (plain when none is open).
pub open spec fn current_style(styles: Seq<Style>) -> Style {
    if styles.len() > 0 {
        styles.last()
    } else {
        plain_style()
    }
}

/// The pieces gathered so far become a line, if there are any.
pub open spec fn flushed(st: RenderView) -> RenderView {
    if st.spans.len() > 0 {
        RenderView {
            lines: st.lines.push(LineView { spans: st.spans, style: plain_style() }),
            spans: seq![],
            ..st
        }
    } else {
        st
    }
}

pub open spec fn with_style(st: RenderView, s: Style) -> RenderView {
    RenderView { styles: st.styles.push(s), ..st }
}

/// The innermost style closed (nothing happens when none is open).
pub open spec fn style_closed(st: RenderView) -> RenderView {
    RenderView {
        styles: if st.styles.len() > 0 {
            st.styles.drop_last()
        } else {
            st.styles
        },
        ..st
    }
}

pub open spec fn with_span(st: RenderView, text: Seq<char>, s: Style) -> RenderView {
    RenderView { spans: st.spans.push((text, s)), ..st }
}

pub open spec fn with_line(st: RenderView, l: LineView) -> RenderView {
    RenderView { lines: st.lines.push(l), ..st }
}

/// A heading of the given level starts: the line so far is finished, a
/// blank line is added, and the heading's style `s` opens.
pub open spec fn heading_opened(st: RenderView, level: u8, s: Style) -> RenderView {
    with_style(RenderView { heading: Some((level, seq![])), ..with_line(flushed(st), blank_line()) }, s)
}

/// A heading ends: its text is recorded against the index of the line
/// about to be finished, that line is finished, and its style closes.
pub open spec fn heading_closed(st: RenderView) -> RenderView {
    let recorded = match st.heading {
        Some((level, text)) => RenderView {
            headings: st.headings.push(
                TocView { level, text, line_index: st.lines.len() as int, is_annotation: false },
            ),
            heading: None,
            ..st
        },
        None => st,
    };
    style_closed(flushed(recorded))
}

/// Text that also belongs to the heading being read, if any.
pub open spec fn heading_text_added(st: RenderView, t: Seq<char>) -> RenderView {
    match st.heading {
        Some((level, h)) => RenderView { heading: Some((level, h + t)), ..st },
        None => st,
    }
}

/// A list item starts: the line so far is finished and the item's bullet
/// begins the next one.
pub open spec fn item_opened(st: RenderView) -> RenderView {
    let f = flushed(st);
    RenderView {
        spans: f.spans.push((item_bullet(f.lists), current_style(f.styles))),
        lists: lists_after_item(f.lists),
        ..f
    }
}

/// A list ends; after the outermost one, a blank line.
pub open spec fn list_closed(st: RenderView) -> RenderView {
    let l2 = if st.lists.len() > 0 {
        st.lists.drop_last()
    } else {
        st.lists
    };
    let st2 = RenderView { lists: l2, ..st };
    if l2.len() == 0 {
        with_line(st2, blank_line())
    } else {
        st2
    }
}

/// Lines `i..` of a code block, each indented by two spaces, each after the
/// first on a line of its own.
pub open spec fn block_lines_from(st: RenderView, ls: Seq<Seq<char>>, i: int, s: Style) -> RenderView
    decreases ls.len() - i,
{
    if i < 0 || i >= ls.len() {
        st
    } else {
        let st1 = if i > 0 {
            flushed(st)
        } else {
            st
        };
        block_lines_from(with_span(st1, seq![' ', ' '] + ls[i], s), ls, i + 1, s)
    }
}

/// The text of a code block, line by line.
pub open spec fn block_text(st: RenderView, t: Seq<char>, s: Style) -> RenderView {
    block_lines_from(st, lines(t), 0, s)
}

/// The renderer's state.
pub struct RenderState {
    pub lines: Vec<Line>,
    pub spans: Vec<Span>,
    pub styles: Vec<Style>,
    pub in_block: bool,
    pub lists: Vec<Option<u64>>,
    pub skip: bool,
    pub headings: Vec<TocHeading>,
    pub heading: Option<(u8, String)>,
}

impl View for RenderState {
    type V = RenderView;

    open spec fn view(&self) -> RenderView {
        RenderView {
            lines: lines_view(self.lines@),
            spans: spans_view(self.spans@),
            styles: self.styles@,
            in_block: self.in_block,
            lists: self.lists@,
            skip: self.skip,
            headings: tocs_view(self.headings@),
            heading: match self.heading {
                Some((l, t)) => Some((l, t@)),
                None => None,
            },
        }
    }
}

impl RenderState {
    pub fn new() -> (r: RenderState)
        ensures
            r@ == start_view(),
    {
        let mut styles: Vec<Style> = Vec::new();
        styles.push(Style::plain());
        let r = RenderState {
            lines: Vec::new(),
            spans: Vec::new(),
            styles,
            in_block: false,
            lists: Vec::new(),
            skip: false,
            headings: Vec::new(),
            heading: None,
        };
        assert(r@.lines =~= seq![]);
        assert(r@.spans =~= seq![]);
        assert(r@.headings =~= seq![]);
        assert(r@.styles =~= seq![plain_style()]);
        r
    }

    pub fn current(&self) -> (r: Style)
        ensures
            r == current_style(self@.styles),
    {
        let n = self.styles.len();
        if n > 0 {
            self.styles[n - 1]
        } else {
            Style::plain()
        }
    }

    pub fn flush(&mut self)
        ensures
            final(self)@ == flushed(old(self)@),
    {
        if self.spans.len() > 0 {
            let mut spans: Vec<Span> = Vec::new();
            std::mem::swap(&mut spans, &mut self.spans);
            let ghost before = self.lines@;
            self.lines.push(Line { spans, style: Style::plain() });
            assert(lines_view(self.lines@) =~= lines_view(before).push(
                LineView { spans: spans_view(old(self).spans@), style: plain_style() },
            ));
            assert(spans_view(self.spans@) =~= seq![]);
        }
    }

    pub fn push_style(&mut self, s: Style)
        ensures
            final(self)@ == with_style(old(self)@, s),
    {
        self.styles.push(s);
    }

    pub fn pop_style(&mut self)
        ensures
            final(self)@ == style_closed(old(self)@),
    {
        if self.styles.len() > 0 {
            self.styles.pop();
        }
    }

    pub fn add_span(&mut self, text: String, s: Style)
        ensures
            final(self)@ == with_span(old(self)@, text@, s),
    {
        let ghost before = self.spans@;
        self.spans.push(Span { content: text, style: s });
        assert(spans_view(self.spans@) =~= spans_view(before).push((text@, s)));
    }

    pub fn add_line(&mut self, l: Line)
        ensures
            final(self)@ == with_line(old(self)@, line_view(l)),
    {
        let ghost before = self.lines@;
        let ghost lv = line_view(l);
        self.lines.push(l);
        assert(lines_view(self.lines@) =~= lines_view(before).push(lv));
    }

    pub fn open_heading(&mut self, level: u8, s: Style)
        ensures
            final(self)@ == heading_opened(old(self)@, level, s),
    {
        self.flush();
        self.add_line(blank());
        self.heading = Some((level, String::new()));
        self.push_style(s);
    }

    pub fn close_heading(&mut self)
        ensures
            final(self)@ == heading_closed(old(self)@),
    {
        let mut h: Option<(u8, String)> = None;
        std::mem::swap(&mut h, &mut self.heading);
        match h {
            Some((level, text)) => {
                let line_index = self.lines.len();
                let ghost before = self.headings@;
                self.headings.push(TocHeading { level, text, line_index, is_annotation: false });
                assert(tocs_view(self.headings@) =~= tocs_view(before).push(
                    TocView {
                        level,
                        text: text@,
                        line_index: line_index as int,
                        is_annotation: false,
                    },
                ));
            },
            None => {},
        }
        self.flush();
        self.pop_style();
    }

    pub fn add_heading_text(&mut self, t: &[char])
        ensures
            final(self)@ == heading_text_added(old(self)@, t@),
    {
        match &mut self.heading {
            Some((_, h)) => {
                push_all(h, t);
            },
            None => {},
        }
    }

    pub fn open_item(&mut self)
        ensures
            final(self)@ == item_opened(old(self)@),
    {
        self.flush();
        let s = self.current();
        let bullet = list_bullet(&mut self.lists);
        self.add_span(bullet, s);
    }

    pub fn close_list(&mut self)
        ensures
            final(self)@ == list_closed(old(self)@),
    {
        if self.lists.len() > 0 {
            self.lists.pop();
        }
        if self.lists.len() == 0 {
            self.add_line(blank());
        }
    }

    pub fn add_block_text(&mut self, t: &[char], s: Style)
        ensures
            final(self)@ == block_text(old(self)@, t@, s),
    {
        let ls = split_lines(t);
        let ghost lv = lines(t@);
        let mut i: usize = 0;
        while i < ls.len()
            invariant
                i <= ls@.len(),
                ls@.len() == lv.len(),
                forall|j: int| 0 <= j < ls@.len() ==> (#[trigger] ls@[j])@ == lv[j],
                block_lines_from(old(self)@, lv, 0, s) == block_lines_from(self@, lv, i as int, s),
            decreases ls@.len() - i,
        {
            if i > 0 {
                self.flush();
            }
            let mut piece = String::new();
            string_push(&mut piece, ' ');
            string_push(&mut piece, ' ');
            push_all(&mut piece, ls[i].as_slice());
            assert(piece@ =~= seq![' ', ' '] + lv[i as int]);
            self.add_span(piece, s);
            i = i + 1;
        }
    }
}


// ---------------------------------------------------------------------------
// HTML
// ---------------------------------------------------------------------------
/// `str::trim_start_matches` with a string: every leading copy of `p` removed.
pub open spec fn strip_prefix_all(s: Seq<char>, p: Seq<char>) -> Seq<char>
    decreases s.len(),
{
    if p.len() > 0 && starts_with(s, p) {
        strip_prefix_all(s.skip(p.len() as int), p)
    } else {
        s
    }
}

/// `str::trim_end_matches` with a character: every trailing `c` removed.
pub open spec fn strip_suffix_all(s: Seq<char>, c: char) -> Seq<char>
    decreases s.len(),
{
    if s.len() > 0 && s.last() == c {
        strip_suffix_all(s.drop_last(), c)
    } else {
        s
    }
}

/// End of the tag name that starts at `i`: the name stops at whitespace or `>`.
pub open spec fn name_end(s: Seq<char>, i: int) -> int
    decreases s.len() - i,
{
    if 0 <= i < s.len() && !is_ws(s[i]) && s[i] != '>' {
        name_end(s, i + 1)
    } else {
        i
    }
}

/// The name in a (lowercased) closing tag: `</` and `>` stripped, then
/// surrounding whitespace.
pub open spec fn close_name(low: Seq<char>) -> Seq<char> {
    trim(strip_suffix_all(strip_prefix_all(low, "</"@), '>'))
}

/// The name in a (lowercased) opening tag: after the `<`, up to whitespace
/// or `>`.
pub open spec fn open_name(low: Seq<char>) -> Seq<char> {
    let t = strip_prefix_all(low, "<"@);
    t.take(name_end(t, 0))
}

/// A closing tag.
pub open spec fn html_close(st: RenderView, name: Seq<char>) -> RenderView {
    if (name == "h1"@ || name == "h2"@ || name == "h3"@ || name == "h4"@ || name == "h5"@ || name == "h6"@) {
        heading_closed(st)
    } else if (name == "p"@ || name == "div"@) {
        with_line(flushed(st), blank_line())
    } else if (name == "strong"@ || name == "b"@ || name == "em"@ || name == "i"@ || name == "code"@ || name == "a"@ || name == "s"@ || name == "del"@) {
        style_closed(st)
    } else if name == "pre"@ {
        block_closed(st)
    } else if name == "blockquote"@ {
        style_closed(flushed(st))
    } else if (name == "ul"@ || name == "ol"@) {
        list_closed(st)
    } else if name == "li"@ {
        flushed(st)
    } else if (name == "style"@ || name == "script"@) {
        RenderView { skip: false, ..st }
    } else {
        st
    }
}

/// The bar that starts a quotation's first line.
pub open spec fn quote_bar() -> Seq<char> {
    seq!['│', ' ']
}

/// A block quotation opens: the line so far is finished, the text turns
/// dark grey and a bar starts the next line.
pub open spec fn quote_opened(st: RenderView) -> RenderView {
    let f = flushed(st);
    with_span(
        with_style(f, with_fg(current_style(f.styles), Color::DarkGray)),
        quote_bar(),
        with_fg(plain_style(), Color::DarkGray),
    )
}

/// A code block opens: the line so far is finished and green text begins.
pub open spec fn block_opened(st: RenderView) -> RenderView {
    with_style(RenderView { in_block: true, ..flushed(st) }, with_fg(plain_style(), Color::Green))
}

/// A code block closes.
pub open spec fn block_closed(st: RenderView) -> RenderView {
    style_closed(RenderView { in_block: false, ..flushed(st) })
}

/// A list opens, with its first ordinal or none for bullets.
pub open spec fn list_opened(st: RenderView, start: Option<u64>) -> RenderView {
    let f = flushed(st);
    RenderView { lists: f.lists.push(start), ..f }
}

/// A horizontal rule and a blank line after it.
pub open spec fn rule_added(st: RenderView) -> RenderView {
    with_line(with_line(flushed(st), rule_line()), blank_line())
}

/// An opening tag.
pub open spec fn html_open(st: RenderView, name: Seq<char>) -> RenderView {
    let cur = current_style(st.styles);
    if name == "h1"@ {
        heading_opened(st, 1, heading_style(1))
    } else if name == "h2"@ {
        heading_opened(st, 2, heading_style(2))
    } else if name == "h3"@ {
        heading_opened(st, 3, heading_style(3))
    } else if name == "h4"@ {
        heading_opened(st, 4, heading_style(4))
    } else if name == "h5"@ {
        heading_opened(st, 5, heading_style(4))
    } else if name == "h6"@ {
        heading_opened(st, 6, heading_style(4))
    } else if (name == "p"@ || name == "div"@ || name == "br"@) {
        flushed(st)
    } else if (name == "strong"@ || name == "b"@) {
        with_style(st, with_bold(cur))
    } else if (name == "em"@ || name == "i"@) {
        with_style(st, with_italic(cur))
    } else if (name == "s"@ || name == "del"@) {
        with_style(st, with_crossed_out(cur))
    } else if name == "code"@ {
        with_style(st, with_fg(cur, Color::Green))
    } else if name == "a"@ {
        with_style(st, with_underline(with_fg(cur, Color::Cyan)))
    } else if name == "pre"@ {
        block_opened(st)
    } else if name == "hr"@ {
        rule_added(st)
    } else if name == "ul"@ {
        list_opened(st, None)
    } else if name == "ol"@ {
        list_opened(st, Some(1))
    } else if name == "li"@ {
        item_opened(st)
    } else if name == "blockquote"@ {
        quote_opened(st)
    } else if (name == "style"@ || name == "script"@) {
        RenderView { skip: true, ..st }
    } else {
        st
    }
}

/// A tag, as written: lowercased, then read as a closing tag when it
/// starts with `</` and as an opening tag otherwise.
pub open spec fn html_tag(st: RenderView, tag: Seq<char>) -> RenderView {
    let low = lowercased(tag);
    if starts_with(low, "</"@) {
        html_close(st, close_name(low))
    } else {
        html_open(st, open_name(low))
    }
}

/// Text between tags: skipped inside `style` and `script`; otherwise its
/// entities are decoded, it joins the heading being read, and it is shown,
/// line by line inside `pre`, and elsewhere unless it is all whitespace.
pub open spec fn html_text(st: RenderView, raw: Seq<char>) -> RenderView {
    if st.skip {
        st
    } else {
        let d = decode_from(raw, 0);
        let st1 = heading_text_added(st, d);
        if st1.in_block {
            block_text(st1, d, current_style(st1.styles))
        } else if trim(d).len() > 0 {
            with_span(st1, d, current_style(st1.styles))
        } else {
            st1
        }
    }
}

/// End of the tag that starts at `i`: just past the next `>`, or the end.
pub open spec fn tag_end(s: Seq<char>, i: int) -> int {
    let k = span_from(s, CharClass::Not('>'), i);
    if k < s.len() {
        k + 1
    } else {
        s.len() as int
    }
}

/// The HTML from index `i` on, read as tags (from `<` to the next `>` or
/// the end) and the text between them.
pub open spec fn html_from(st: RenderView, s: Seq<char>, i: int) -> RenderView
    decreases s.len() - i,
{
    if i < 0 || i >= s.len() {
        st
    } else if s[i] == '<' {
        proof {
            lemma_span_bounds(s, CharClass::Not('>'), i);
        }
        html_from(html_tag(st, s.subrange(i, tag_end(s, i))), s, tag_end(s, i))
    } else {
        proof {
            lemma_span_bounds(s, CharClass::Not('<'), i);
        }
        let e = span_from(s, CharClass::Not('<'), i);
        html_from(html_text(st, s.subrange(i, e)), s, e)
    }
}

/// What rendering an HTML text ends with.
pub open spec fn html_rendered(s: Seq<char>) -> RenderView {
    flushed(html_from(start_view(), s, 0))
}

fn strip_prefix_all_of(s: Vec<char>, lit: &str) -> (r: Vec<char>)
    requires
        lit@.len() > 0,
    ensures
        r@ == strip_prefix_all(s@, lit@),
    decreases s@.len(),
{
    if starts_with_str(s.as_slice(), lit) {
        let n = lit.unicode_len();
        let rest = slice_of(s.as_slice(), n, s.len());
        assert(rest@ =~= s@.skip(n as int));
        strip_prefix_all_of(rest, lit)
    } else {
        s
    }
}

fn strip_suffix_all_of(s: &[char], c: char) -> (r: Vec<char>)
    ensures
        r@ == strip_suffix_all(s@, c),
{
    let mut end = s.len();
    assert(s@.take(end as int) =~= s@);
    while end > 0 && s[end - 1] == c
        invariant
            end <= s@.len(),
            strip_suffix_all(s@, c) == strip_suffix_all(s@.take(end as int), c),
        decreases end,
    {
        assert(s@.take(end as int).drop_last() =~= s@.take(end - 1));
        end = end - 1;
    }
    slice_of(s, 0, end)
}

fn name_end_of(t: &[char]) -> (r: usize)
    ensures
        r == name_end(t@, 0),
        r <= t@.len(),
{
    let mut i: usize = 0;
    while i < t.len() && !char_is_whitespace(t[i]) && t[i] != '>'
        invariant
            i <= t@.len(),
            name_end(t@, 0) == name_end(t@, i as int),
        decreases t@.len() - i,
    {
        i = i + 1;
    }
    i
}

fn close_name_of(low: &[char]) -> (r: Vec<char>)
    ensures
        r@ == close_name(low@),
{
    proof {
        reveal_strlit("</");
    }
    let a = strip_prefix_all_of(slice_of(low, 0, low.len()), "</");
    assert(low@.subrange(0, low@.len() as int) =~= low@);
    let b = strip_suffix_all_of(a.as_slice(), '>');
    trim_of(b.as_slice())
}

fn open_name_of(low: &[char]) -> (r: Vec<char>)
    ensures
        r@ == open_name(low@),
{
    proof {
        reveal_strlit("<");
    }
    let t = strip_prefix_all_of(slice_of(low, 0, low.len()), "<");
    assert(low@.subrange(0, low@.len() as int) =~= low@);
    let e = name_end_of(t.as_slice());
    let r = slice_of(t.as_slice(), 0, e);
    assert(r@ =~= t@.take(e as int));
    r
}

impl RenderState {
    pub fn html_close(&mut self, name: &[char])
        ensures
            final(self)@ == html_close(old(self)@, name@),
    {
        if eq_str(name, "h1") || eq_str(name, "h2") || eq_str(name, "h3") || eq_str(name, "h4")
            || eq_str(name, "h5") || eq_str(name, "h6") {
            self.close_heading();
        } else if eq_str(name, "p") || eq_str(name, "div") {
            self.flush();
            self.add_line(blank());
        } else if eq_str(name, "strong") || eq_str(name, "b") || eq_str(name, "em") || eq_str(
            name,
            "i",
        ) || eq_str(name, "code") || eq_str(name, "a") || eq_str(name, "s") || eq_str(name, "del") {
            self.pop_style();
        } else if eq_str(name, "pre") {
            self.close_block();
        } else if eq_str(name, "blockquote") {
            self.flush();
            self.pop_style();
        } else if eq_str(name, "ul") || eq_str(name, "ol") {
            self.close_list();
        } else if eq_str(name, "li") {
            self.flush();
        } else if eq_str(name, "style") || eq_str(name, "script") {
            self.skip = false;
        }
    }

    pub fn open_quote(&mut self)
        ensures
            final(self)@ == quote_opened(old(self)@),
    {
        self.flush();
        let cur = self.current();
        self.push_style(cur.fg(Color::DarkGray));
        let mut bar = String::new();
        string_push(&mut bar, '│');
        string_push(&mut bar, ' ');
        assert(bar@ =~= quote_bar());
        self.add_span(bar, Style::plain().fg(Color::DarkGray));
    }

    pub fn open_block(&mut self)
        ensures
            final(self)@ == block_opened(old(self)@),
    {
        self.flush();
        self.in_block = true;
        self.push_style(Style::plain().fg(Color::Green));
    }

    pub fn close_block(&mut self)
        ensures
            final(self)@ == block_closed(old(self)@),
    {
        self.flush();
        self.in_block = false;
        self.pop_style();
    }

    pub fn open_list(&mut self, start: Option<u64>)
        ensures
            final(self)@ == list_opened(old(self)@, start),
    {
        self.flush();
        self.lists.push(start);
    }

    pub fn add_rule(&mut self)
        ensures
            final(self)@ == rule_added(old(self)@),
    {
        self.flush();
        self.add_line(rule());
        self.add_line(blank());
    }

    pub fn html_open(&mut self, name: &[char])
        ensures
            final(self)@ == html_open(old(self)@, name@),
    {
        let cur = self.current();
        if eq_str(name, "h1") {
            self.open_heading(1, heading_style_of(1));
        } else if eq_str(name, "h2") {
            self.open_heading(2, heading_style_of(2));
        } else if eq_str(name, "h3") {
            self.open_heading(3, heading_style_of(3));
        } else if eq_str(name, "h4") {
            self.open_heading(4, heading_style_of(4));
        } else if eq_str(name, "h5") {
            self.open_heading(5, heading_style_of(4));
        } else if eq_str(name, "h6") {
            self.open_heading(6, heading_style_of(4));
        } else if eq_str(name, "p") || eq_str(name, "div") || eq_str(name, "br") {
            self.flush();
        } else if eq_str(name, "strong") || eq_str(name, "b") {
            self.push_style(cur.bold());
        } else if eq_str(name, "em") || eq_str(name, "i") {
            self.push_style(cur.italic());
        } else if eq_str(name, "s") || eq_str(name, "del") {
            self.push_style(cur.crossed_out());
        } else if eq_str(name, "code") {
            self.push_style(cur.fg(Color::Green));
        } else if eq_str(name, "a") {
            self.push_style(cur.fg(Color::Cyan).underlined());
        } else if eq_str(name, "pre") {
            self.open_block();
        } else if eq_str(name, "hr") {
            self.add_rule();
        } else if eq_str(name, "ul") {
            self.open_list(None);
        } else if eq_str(name, "ol") {
            self.open_list(Some(1));
        } else if eq_str(name, "li") {
            self.open_item();
        } else if eq_str(name, "blockquote") {
            self.open_quote();
        } else if eq_str(name, "style") || eq_str(name, "script") {
            self.skip = true;
        }
    }

    pub fn html_tag(&mut self, tag: &[char])
        ensures
            final(self)@ == html_tag(old(self)@, tag@),
    {
        let ts = string_of(tag);
        let low_s = to_lowercase(ts.as_str());
        let low = chars_of(low_s.as_str());
        if starts_with_str(low.as_slice(), "</") {
            let name = close_name_of(low.as_slice());
            self.html_close(name.as_slice());
        } else {
            let name = open_name_of(low.as_slice());
            self.html_open(name.as_slice());
        }
    }

    pub fn html_text(&mut self, raw: &[char])
        ensures
            final(self)@ == html_text(old(self)@, raw@),
    {
        if self.skip {
            return;
        }
        let rs = string_of(raw);
        let d = decode_html_entities(rs.as_str());
        let dc = chars_of(d.as_str());
        self.add_heading_text(dc.as_slice());
        let cur = self.current();
        if self.in_block {
            self.add_block_text(dc.as_slice(), cur);
        } else if trim_of(dc.as_slice()).len() > 0 {
            self.add_span(d, cur);
        }
    }
}

/// Convert simple HTML to styled Lines.
/// Handles common tags: h1-h6, p, strong, em, code, pre, a, ul, ol, li, blockquote, hr.
pub fn render_html_to_lines(html: &str) -> (r: (Vec<Line>, Vec<TocHeading>))
    ensures
        lines_view(r.0@) == html_rendered(html@).lines,
        tocs_view(r.1@) == html_rendered(html@).headings,
{
    let s = chars_of(html);
    let mut st = RenderState::new();
    let mut pos: usize = 0;
    while pos < s.len()
        invariant
            pos <= s@.len(),
            s@ == html@,
            html_from(start_view(), s@, 0) == html_from(st@, s@, pos as int),
        decreases s@.len() - pos,
    {
        if s[pos] == '<' {
            let k = span(s.as_slice(), CharClass::Not('>'), pos);
            let e = if k < s.len() {
                k + 1
            } else {
                s.len()
            };
            assert(e as int == tag_end(s@, pos as int));
            let tag = slice_of(s.as_slice(), pos, e);
            st.html_tag(tag.as_slice());
            pos = e;
        } else {
            let e = span(s.as_slice(), CharClass::Not('<'), pos);
            proof {
                lemma_span_bounds(s@, CharClass::Not('<'), pos as int);
            }
            let text = slice_of(s.as_slice(), pos, e);
            st.html_text(text.as_slice());
            pos = e;
        }
    }
    st.flush();
    (st.lines, st.headings)
}


// ---------------------------------------------------------------------------
// Markdown
// ---------------------------------------------------------------------------
/// The parser's opening tags, as far as rendering tells them apart.
#[derive(Clone, Copy, Debug, PartialEq, Eq, Structural)]
pub enum MdTag {
    Heading(u8),
    Paragraph,
    Emphasis,
    Strong,
    Strikethrough,
    CodeBlock,
    Link,
    /// A list, with the number of its first item when it is numbered.
    List(Option<u64>),
    Item,
    TableHead,
    TableRow,
    TableCell,
    BlockQuote,
    Other,
}

/// The parser's closing tags, as far as rendering tells them apart.
#[derive(Clone, Copy, Debug, PartialEq, Eq, Structural)]
pub enum MdTagEnd {
    Heading,
    Paragraph,
    Emphasis,
    Strong,
    Strikethrough,
    Link,
    CodeBlock,
    List,
    Item,
    Table,
    TableHead,
    TableRow,
    BlockQuote,
    Other,
}

/// One event of the Markdown parser.
#[derive(Debug)]
pub enum MdEvent {
    Start(MdTag),
    End(MdTagEnd),
    Text(String),
    Code(String),
    TaskListMarker(bool),
    SoftBreak,
    HardBreak,
    Rule,
    Other,
}

pub enum MdItem {
    Start(MdTag),
    End(MdTagEnd),
    Text(Seq<char>),
    Code(Seq<char>),
    TaskListMarker(bool),
    SoftBreak,
    HardBreak,
    Rule,
    Other,
}

pub open spec fn md_item(e: MdEvent) -> MdItem {
    match e {
        MdEvent::Start(t) => MdItem::Start(t),
        MdEvent::End(t) => MdItem::End(t),
        MdEvent::Text(s) => MdItem::Text(s@),
        MdEvent::Code(s) => MdItem::Code(s@),
        MdEvent::TaskListMarker(b) => MdItem::TaskListMarker(b),
        MdEvent::SoftBreak => MdItem::SoftBreak,
        MdEvent::HardBreak => MdItem::HardBreak,
        MdEvent::Rule => MdItem::Rule,
        MdEvent::Other => MdItem::Other,
    }
}

pub open spec fn md_items(v: Seq<MdEvent>) -> Seq<MdItem> {
    v.map_values(|e: MdEvent| md_item(e))
}

/// The events `pulldown_cmark::Parser` reports for a source, with tables,
/// footnotes, strikethrough and task lists enabled.
pub uninterp spec fn markdown_events(source: Seq<char>) -> Seq<MdItem>;

/// `pulldown_cmark::Parser::new_ext` with tables, footnotes, strikethrough
/// and task lists enabled, its events converted one by one; the events are
/// named `markdown_events`.
#[verifier::external_body]
pub(crate) fn parse_markdown(source: &str) -> (r: Vec<MdEvent>)
    ensures
        md_items(r@) == markdown_events(source@),
{
    let options = pulldown_cmark::Options::ENABLE_TABLES | pulldown_cmark::Options::ENABLE_FOOTNOTES
        | pulldown_cmark::Options::ENABLE_STRIKETHROUGH | pulldown_cmark::Options::ENABLE_TASKLISTS;
    let mut out = Vec::new();
    for e in pulldown_cmark::Parser::new_ext(source, options) {
        out.push(md_event(e));
    }
    out
}

#[verifier::external_type_specification]
#[verifier::external_body]
pub struct ExMdParserEvent<'a>(pulldown_cmark::Event<'a>);

#[verifier::external_type_specification]
#[verifier::external_body]
pub struct ExMdParserTag<'a>(pulldown_cmark::Tag<'a>);

#[verifier::external_type_specification]
#[verifier::external_body]
pub struct ExMdParserTagEnd(pulldown_cmark::TagEnd);

/// Converts a `pulldown_cmark::Event`, variant by variant, for `parse_markdown`.
#[verifier::external_body]
fn md_event(e: Event) -> MdEvent {
    match e {
        Event::Start(t) => MdEvent::Start(md_tag(t)),
        Event::End(t) => MdEvent::End(md_tag_end(t)),
        Event::Text(s) => MdEvent::Text(s.to_string()),
        Event::Code(s) => MdEvent::Code(s.to_string()),
        Event::TaskListMarker(b) => MdEvent::TaskListMarker(b),
        Event::SoftBreak => MdEvent::SoftBreak,
        Event::HardBreak => MdEvent::HardBreak,
        Event::Rule => MdEvent::Rule,
        _ => MdEvent::Other,
    }
}

/// Converts a `pulldown_cmark::Tag`, variant by variant, for `md_event`.
#[verifier::external_body]
fn md_tag(t: Tag) -> MdTag {
    match t {
        Tag::Heading { level, .. } => MdTag::Heading(level as u8),
        Tag::Paragraph => MdTag::Paragraph, Tag::Emphasis => MdTag::Emphasis,
        Tag::Strong => MdTag::Strong, Tag::Strikethrough => MdTag::Strikethrough,
        Tag::CodeBlock(_) => MdTag::CodeBlock, Tag::Link { .. } => MdTag::Link,
        Tag::List(start) => MdTag::List(start), Tag::Item => MdTag::Item,
        Tag::TableHead => MdTag::TableHead, Tag::TableRow => MdTag::TableRow,
        Tag::TableCell => MdTag::TableCell, Tag::BlockQuote(_) => MdTag::BlockQuote,
        _ => MdTag::Other,
    }
}

/// Converts a `pulldown_cmark::TagEnd`, variant by variant, for `md_event`.
#[verifier::external_body]
fn md_tag_end(t: TagEnd) -> MdTagEnd {
    match t {
        TagEnd::Heading(_) => MdTagEnd::Heading, TagEnd::Paragraph => MdTagEnd::Paragraph,
        TagEnd::Emphasis => MdTagEnd::Emphasis, TagEnd::Strong => MdTagEnd::Strong,
        TagEnd::Strikethrough => MdTagEnd::Strikethrough, TagEnd::Link => MdTagEnd::Link,
        TagEnd::CodeBlock => MdTagEnd::CodeBlock, TagEnd::List(_) => MdTagEnd::List,
        TagEnd::Item => MdTagEnd::Item, TagEnd::Table => MdTagEnd::Table,
        TagEnd::TableHead => MdTagEnd::TableHead, TagEnd::TableRow => MdTagEnd::TableRow,
        TagEnd::BlockQuote(_) => MdTagEnd::BlockQuote,
        _ => MdTagEnd::Other,
    }
}

/// The separator between table cells.
pub open spec fn cell_separator() -> Seq<char> {
    seq![' ', '│', ' ']
}

/// An opening tag.
pub open spec fn md_start(st: RenderView, t: MdTag) -> RenderView {
    let cur = current_style(st.styles);
    match t {
        MdTag::Heading(level) => heading_opened(st, level, heading_style(level)),
        MdTag::Paragraph => flushed(st),
        MdTag::Emphasis => with_style(st, with_italic(cur)),
        MdTag::Strong => with_style(st, with_bold(cur)),
        MdTag::Strikethrough => with_style(st, with_crossed_out(cur)),
        MdTag::CodeBlock => block_opened(st),
        MdTag::Link => with_style(st, with_underline(with_fg(cur, Color::Cyan))),
        MdTag::List(start) => list_opened(st, start),
        MdTag::Item => item_opened(st),
        MdTag::TableHead => flushed(st),
        MdTag::TableRow => flushed(st),
        MdTag::TableCell => if st.spans.len() > 0 {
            with_span(st, cell_separator(), with_fg(plain_style(), Color::DarkGray))
        } else {
            st
        },
        MdTag::BlockQuote => quote_opened(st),
        MdTag::Other => st,
    }
}

/// A closing tag.
pub open spec fn md_end(st: RenderView, t: MdTagEnd) -> RenderView {
    match t {
        MdTagEnd::Heading => heading_closed(st),
        MdTagEnd::Paragraph => with_line(flushed(st), blank_line()),
        MdTagEnd::Emphasis => style_closed(st),
        MdTagEnd::Strong => style_closed(st),
        MdTagEnd::Strikethrough => style_closed(st),
        MdTagEnd::Link => style_closed(st),
        MdTagEnd::CodeBlock => block_closed(st),
        MdTagEnd::List => list_closed(st),
        MdTagEnd::TableHead => flushed(st),
        MdTagEnd::TableRow => flushed(st),
        MdTagEnd::Table => with_line(flushed(st), blank_line()),
        MdTagEnd::Item => flushed(st),
        MdTagEnd::BlockQuote => style_closed(flushed(st)),
        MdTagEnd::Other => st,
    }
}

/// The marker of a task list item.
pub open spec fn task_marker(checked: bool) -> Seq<char> {
    if checked {
        seq!['[', 'x', ']', ' ']
    } else {
        seq!['[', ' ', ']', ' ']
    }
}

/// One parser event.
pub open spec fn md_step(st: RenderView, e: MdItem) -> RenderView {
    match e {
        MdItem::Start(t) => md_start(st, t),
        MdItem::End(t) => md_end(st, t),
        MdItem::Text(t) => {
            let st1 = heading_text_added(st, t);
            if st1.in_block {
                block_text(st1, t, current_style(st1.styles))
            } else {
                with_span(st1, t, current_style(st1.styles))
            }
        },
        MdItem::Code(c) => {
            let st1 = heading_text_added(st, c);
            with_span(st1, seq!['`'] + c + seq!['`'], with_fg(current_style(st1.styles), Color::Green))
        },
        MdItem::TaskListMarker(b) => with_span(st, task_marker(b), current_style(st.styles)),
        MdItem::SoftBreak => with_span(st, seq![' '], plain_style()),
        MdItem::HardBreak => flushed(st),
        MdItem::Rule => rule_added(st),
        MdItem::Other => st,
    }
}

/// The events from index `i` on.
pub open spec fn md_from(st: RenderView, es: Seq<MdItem>, i: int) -> RenderView
    decreases es.len() - i,
{
    if i < 0 || i >= es.len() {
        st
    } else {
        md_from(md_step(st, es[i]), es, i + 1)
    }
}

/// What rendering a sequence of parser events ends with.
pub open spec fn md_rendered(es: Seq<MdItem>) -> RenderView {
    flushed(md_from(start_view(), es, 0))
}

impl RenderState {
    pub fn md_start(&mut self, t: MdTag)
        ensures
            final(self)@ == md_start(old(self)@, t),
    {
        let cur = self.current();
        match t {
            MdTag::Heading(level) => self.open_heading(level, heading_style_of(level)),
            MdTag::Paragraph => self.flush(),
            MdTag::Emphasis => self.push_style(cur.italic()),
            MdTag::Strong => self.push_style(cur.bold()),
            MdTag::Strikethrough => self.push_style(cur.crossed_out()),
            MdTag::CodeBlock => self.open_block(),
            MdTag::Link => self.push_style(cur.fg(Color::Cyan).underlined()),
            MdTag::List(start) => self.open_list(start),
            MdTag::Item => self.open_item(),
            MdTag::TableHead => self.flush(),
            MdTag::TableRow => self.flush(),
            MdTag::TableCell => {
                if self.spans.len() > 0 {
                    let mut sep = String::new();
                    string_push(&mut sep, ' ');
                    string_push(&mut sep, '│');
                    string_push(&mut sep, ' ');
                    assert(sep@ =~= cell_separator());
                    self.add_span(sep, Style::plain().fg(Color::DarkGray));
                }
            },
            MdTag::BlockQuote => self.open_quote(),
            MdTag::Other => {},
        }
    }

    pub fn md_end(&mut self, t: MdTagEnd)
        ensures
            final(self)@ == md_end(old(self)@, t),
    {
        match t {
            MdTagEnd::Heading => self.close_heading(),
            MdTagEnd::Paragraph => {
                self.flush();
                self.add_line(blank());
            },
            MdTagEnd::Emphasis => self.pop_style(),
            MdTagEnd::Strong => self.pop_style(),
            MdTagEnd::Strikethrough => self.pop_style(),
            MdTagEnd::Link => self.pop_style(),
            MdTagEnd::CodeBlock => self.close_block(),
            MdTagEnd::List => self.close_list(),
            MdTagEnd::TableHead => self.flush(),
            MdTagEnd::TableRow => self.flush(),
            MdTagEnd::Table => {
                self.flush();
                self.add_line(blank());
            },
            MdTagEnd::Item => self.flush(),
            MdTagEnd::BlockQuote => {
                self.flush();
                self.pop_style();
            },
            MdTagEnd::Other => {},
        }
    }

    pub fn md_step(&mut self, e: &MdEvent)
        ensures
            final(self)@ == md_step(old(self)@, md_item(*e)),
    {
        match e {
            MdEvent::Start(t) => self.md_start(*t),
            MdEvent::End(t) => self.md_end(*t),
            MdEvent::Text(t) => {
                let tc = chars_of(t.as_str());
                self.add_heading_text(tc.as_slice());
                let cur = self.current();
                if self.in_block {
                    self.add_block_text(tc.as_slice(), cur);
                } else {
                    self.add_span(string_of(tc.as_slice()), cur);
                }
            },
            MdEvent::Code(c) => {
                let cc = chars_of(c.as_str());
                self.add_heading_text(cc.as_slice());
                let cur = self.current();
                let mut s = String::new();
                string_push(&mut s, '`');
                push_all(&mut s, cc.as_slice());
                string_push(&mut s, '`');
                assert(s@ =~= seq!['`'] + c@ + seq!['`']);
                self.add_span(s, cur.fg(Color::Green));
            },
            MdEvent::TaskListMarker(b) => {
                let mut s = String::new();
                string_push(&mut s, '[');
                string_push(&mut s, if *b { 'x' } else { ' ' });
                string_push(&mut s, ']');
                string_push(&mut s, ' ');
                assert(s@ =~= task_marker(*b));
                let cur = self.current();
                self.add_span(s, cur);
            },
            MdEvent::SoftBreak => {
                let mut s = String::new();
                string_push(&mut s, ' ');
                assert(s@ =~= seq![' ']);
                self.add_span(s, Style::plain());
            },
            MdEvent::HardBreak => self.flush(),
            MdEvent::Rule => self.add_rule(),
            MdEvent::Other => {},
        }
    }
}

/// Render a sequence of Markdown parser events into styled lines, with the
/// headings found.
pub fn render_events(events: &[MdEvent]) -> (r: (Vec<Line>, Vec<TocHeading>))
    ensures
        lines_view(r.0@) == md_rendered(md_items(events@)).lines,
        tocs_view(r.1@) == md_rendered(md_items(events@)).headings,
{
    let ghost es = md_items(events@);
    let mut st = RenderState::new();
    let mut i: usize = 0;
    while i < events.len()
        invariant
            i <= events@.len(),
            es == md_items(events@),
            es.len() == events@.len(),
            md_from(start_view(), es, 0) == md_from(st@, es, i as int),
        decreases events@.len() - i,
    {
        assert(es[i as int] == md_item(events@[i as int]));
        st.md_step(&events[i]);
        i = i + 1;
    }
    st.flush();
    (st.lines, st.headings)
}

/// Render markdown source into styled lines, with the headings found.
pub fn render_markdown(source: &str) -> (r: (Vec<Line>, Vec<TocHeading>))
    ensures
        lines_view(r.0@) == md_rendered(markdown_events(source@)).lines,
        tocs_view(r.1@) == md_rendered(markdown_events(source@)).headings,
{
    let events = parse_markdown(source);
    render_events(events.as_slice())
}


// ---------------------------------------------------------------------------
// Org-mode and reStructuredText, through HTML
// ---------------------------------------------------------------------------
/// A line of text as it stands (`Line::raw`): one plain piece per line of
/// it (none for empty text).
pub open spec fn raw_line(content: Seq<char>) -> LineView {
    LineView { spans: plain_pieces(lines(content)), style: plain_style() }
}

/// Each piece of text, plain.
pub open spec fn plain_pieces(ps: Seq<Seq<char>>) -> Seq<(Seq<char>, Style)> {
    ps.map_values(|p: Seq<char>| (p, plain_style()))
}

/// Each line of text as it stands.
pub open spec fn raw_lines(ls: Seq<Seq<char>>) -> Seq<LineView> {
    ls.map_values(|l: Seq<char>| raw_line(l))
}

/// A source shown as it stands, one plain line per line of it.
pub open spec fn plain_lines(source: Seq<char>) -> Seq<LineView> {
    raw_lines(lines(source))
}

fn raw_line_of(content: &[char]) -> (r: Line)
    ensures
        line_view(r) == raw_line(content@),
{
    let pieces = split_lines(content);
    let ghost pv = lines(content@);
    let mut spans: Vec<Span> = Vec::new();
    let mut i: usize = 0;
    while i < pieces.len()
        invariant
            i <= pieces@.len(),
            pieces@.len() == pv.len(),
            forall|j: int| 0 <= j < pieces@.len() ==> (#[trigger] pieces@[j])@ == pv[j],
            spans_view(spans@) == plain_pieces(pv.take(i as int)),
        decreases pieces@.len() - i,
    {
        let ghost before = spans@;
        let c = string_of(pieces[i].as_slice());
        spans.push(Span { content: c, style: Style::plain() });
        proof {
            let a = spans_view(spans@);
            let b = plain_pieces(pv.take(i + 1));
            assert(spans_view(before).len() == before.len());
            assert(plain_pieces(pv.take(i as int)).len() == i);
            assert(before.len() == i);
            assert(spans@.len() == i + 1);
            assert(a.len() == i + 1);
            assert(b.len() == i + 1);
            assert forall|k: int| 0 <= k < a.len() implies a[k] == b[k] by {
                if k < i {
                    assert(spans@[k] == before[k]);
                    assert(spans_view(before)[k] == plain_pieces(pv.take(i as int))[k]);
                }
            }
            assert(a =~= b);
        }
        i = i + 1;
    }
    assert(pv.take(i as int) =~= pv);
    Line { spans, style: Style::plain() }
}

/// The source shown as it stands, one plain line per line of it.
pub fn plain_lines_of(source: &str) -> (r: Vec<Line>)
    ensures
        lines_view(r@) == plain_lines(source@),
{
    let cs = chars_of(source);
    let ls = split_lines(cs.as_slice());
    let ghost lv = lines(source@);
    let mut out: Vec<Line> = Vec::new();
    let mut i: usize = 0;
    while i < ls.len()
        invariant
            i <= ls@.len(),
            cs@ == source@,
            ls@.len() == lv.len(),
            lv == lines(cs@),
            forall|j: int| 0 <= j < ls@.len() ==> (#[trigger] ls@[j])@ == lv[j],
            lines_view(out@) == raw_lines(lv.take(i as int)),
        decreases ls@.len() - i,
    {
        let ghost before = out@;
        out.push(raw_line_of(ls[i].as_slice()));
        proof {
            let a = lines_view(out@);
            let b = raw_lines(lv.take(i + 1));
            assert(lines_view(before).len() == before.len());
            assert(raw_lines(lv.take(i as int)).len() == i);
            assert(before.len() == i);
            assert(out@.len() == i + 1);
            assert(a.len() == i + 1);
            assert(b.len() == i + 1);
            assert forall|k: int| 0 <= k < a.len() implies a[k] == b[k] by {
                if k < i {
                    assert(out@[k] == before[k]);
                    assert(lines_view(before)[k] == raw_lines(lv.take(i as int))[k]);
                }
            }
            assert(a =~= b);
        }
        i = i + 1;
    }
    assert(lv.take(i as int) =~= lv);
    out
}


/// What `String::from_utf8` makes of bytes (`None` when they are not UTF-8).
pub uninterp spec fn utf8_decoded(bytes: Seq<u8>) -> Option<Seq<char>>;

pub open spec fn bytes_view(b: Option<Vec<u8>>) -> Option<Seq<u8>> {
    match b {
        Some(v) => Some(v@),
        None => None,
    }
}


/// `String::from_utf8`; the answer is named `utf8_decoded`.
#[verifier::external_body]
pub(crate) fn utf8_string(bytes: Vec<u8>) -> (r: Option<String>)
    ensures
        match r {
            Some(s) => utf8_decoded(bytes@) == Some(s@),
            None => utf8_decoded(bytes@) is None,
        },
{
    String::from_utf8(bytes).ok()
}

/// What a converter's HTML output renders as: the HTML's lines and
/// headings (the source itself when the bytes are not UTF-8), or, when the
/// converter failed, the source as it stands and no headings.
pub open spec fn converted_rendered(html: Option<Seq<u8>>, source: Seq<char>) -> (Seq<LineView>, Seq<TocView>) {
    match html {
        Some(b) => {
            let text = match utf8_decoded(b) {
                Some(t) => t,
                None => source,
            };
            (html_rendered(text).lines, html_rendered(text).headings)
        },
        None => (plain_lines(source), seq![]),
    }
}

/// Render what a converter produced from `source`: its HTML when it
/// succeeded, the source as it stands when it failed.
pub fn render_converted(html: Option<Vec<u8>>, source: &str) -> (r: (Vec<Line>, Vec<TocHeading>))
    ensures
        (lines_view(r.0@), tocs_view(r.1@)) == converted_rendered(bytes_view(html), source@),
{
    match html {
        Some(bytes) => {
            let text = match utf8_string(bytes) {
                Some(t) => t,
                None => source.to_owned(),
            };
            render_html_to_lines(text.as_str())
        },
        None => {
            let empty: Vec<TocHeading> = Vec::new();
            assert(tocs_view(empty@) =~= seq![]);
            (plain_lines_of(source), empty)
        },
    }
}


/// What a document renders to in the terminal viewer, by its format:
/// Markdown through its events, org-mode and reStructuredText through the
/// HTML their converter wrote (`converted`), and anything else as its lines
/// of raw text with no headings.
pub open spec fn document_rendered(format: Format, source: Seq<char>, converted: Option<Seq<u8>>) -> (
    Seq<LineView>,
    Seq<TocView>,
) {
    match format {
        Format::Markdown => (
            md_rendered(markdown_events(source)).lines,
            md_rendered(markdown_events(source)).headings,
        ),
        Format::OrgMode => converted_rendered(converted, source),
        Format::ReStructuredText => converted_rendered(converted, source),
        Format::Plain => (plain_lines(source), seq![]),
    }
}

/// Render a document for the terminal viewer, by its format. For an
/// org-mode or reStructuredText document, `converted` is the HTML its
/// converter (`orgize`; `rst_parser` with `rst_renderer`) wrote for the
/// source (`None` when it failed); it is not used for other formats.
///
/// Those converters stop the program on inputs they do not support (the
/// reStructuredText renderer has unimplemented elements; that `orgize`
/// never does so is not established), which no contract here can describe,
/// so the caller runs them where that can be caught.
pub fn render_document(doc: &Document, converted: Option<Vec<u8>>) -> (r: (Vec<Line>, Vec<TocHeading>))
    ensures
        (lines_view(r.0@), tocs_view(r.1@)) == document_rendered(
            doc.format,
            doc.source@,
            bytes_view(converted),
        ),
{
    match doc.format {
        Format::Markdown => render_markdown(doc.source.as_str()),
        Format::OrgMode => render_converted(converted, doc.source.as_str()),
        Format::ReStructuredText => render_converted(converted, doc.source.as_str()),
        Format::Plain => {
            let lines = plain_lines_of(doc.source.as_str());
            let none: Vec<TocHeading> = Vec::new();
            assert(tocs_view(none@) =~= seq![]);
            (lines, none)
        },
    }
}


// ---------------------------------------------------------------------------
// The table of contents points into the document, in order
// ---------------------------------------------------------------------------
/// Every recorded heading names a line index no greater than the number of
/// finished lines, and the indices never decrease.
pub open spec fn toc_in_order(st: RenderView) -> bool {
    &&& forall|i: int|
        0 <= i < st.headings.len() ==> 0 <= #[trigger] st.headings[i].line_index <= st.lines.len()
    &&& forall|i: int, j: int|
        0 <= i < j < st.headings.len() ==> (#[trigger] st.headings[i]).line_index
            <= (#[trigger] st.headings[j]).line_index
}

proof fn lemma_flushed_keeps(st: RenderView)
    requires
        toc_in_order(st),
    ensures
        toc_in_order(flushed(st)),
        flushed(st).headings == st.headings,
        flushed(st).lines.len() >= st.lines.len(),
{
}

proof fn lemma_block_lines_keep(st: RenderView, ls: Seq<Seq<char>>, i: int, s: Style)
    requires
        toc_in_order(st),
    ensures
        toc_in_order(block_lines_from(st, ls, i, s)),
    decreases ls.len() - i,
{
    if 0 <= i < ls.len() {
        let st1 = if i > 0 {
            flushed(st)
        } else {
            st
        };
        lemma_flushed_keeps(st);
        lemma_block_lines_keep(with_span(st1, seq![' ', ' '] + ls[i], s), ls, i + 1, s);
    }
}

proof fn lemma_heading_closed_keeps(st: RenderView)
    requires
        toc_in_order(st),
    ensures
        toc_in_order(heading_closed(st)),
{
    let recorded = match st.heading {
        Some((level, text)) => RenderView {
            headings: st.headings.push(
                TocView { level, text, line_index: st.lines.len() as int, is_annotation: false },
            ),
            heading: None,
            ..st
        },
        None => st,
    };
    assert(toc_in_order(recorded));
    lemma_flushed_keeps(recorded);
}

proof fn lemma_html_step_keeps(st: RenderView, s: Seq<char>, i: int)
    requires
        toc_in_order(st),
        0 <= i < s.len(),
    ensures
        s[i] == '<' ==> toc_in_order(html_tag(st, s.subrange(i, tag_end(s, i)))),
        s[i] != '<' ==> toc_in_order(
            html_text(st, s.subrange(i, span_from(s, CharClass::Not('<'), i))),
        ),
{
    lemma_flushed_keeps(st);
    lemma_heading_closed_keeps(st);
    lemma_flushed_keeps(with_line(flushed(st), rule_line()));
    if s[i] != '<' {
        let raw = s.subrange(i, span_from(s, CharClass::Not('<'), i));
        if !st.skip {
            let d = decode_from(raw, 0);
            let st1 = heading_text_added(st, d);
            lemma_block_lines_keep(st1, lines(d), 0, current_style(st1.styles));
        }
    }
}

proof fn lemma_html_from_keeps(st: RenderView, s: Seq<char>, i: int)
    requires
        toc_in_order(st),
        0 <= i,
    ensures
        toc_in_order(html_from(st, s, i)),
    decreases s.len() - i,
{
    if i < s.len() {
        lemma_html_step_keeps(st, s, i);
        if s[i] == '<' {
            lemma_span_bounds(s, CharClass::Not('>'), i);
            lemma_html_from_keeps(html_tag(st, s.subrange(i, tag_end(s, i))), s, tag_end(s, i));
        } else {
            lemma_span_bounds(s, CharClass::Not('<'), i);
            let e = span_from(s, CharClass::Not('<'), i);
            lemma_html_from_keeps(html_text(st, s.subrange(i, e)), s, e);
        }
    }
}

/// Rendering HTML gives a table of contents whose entries point at lines
/// of the rendered text (or just past its end), in order.
pub proof fn lemma_html_toc_in_order(s: Seq<char>)
    ensures
        toc_in_order(html_rendered(s)),
{
    lemma_html_from_keeps(start_view(), s, 0);
    lemma_flushed_keeps(html_from(start_view(), s, 0));
}

proof fn lemma_md_step_keeps(st: RenderView, e: MdItem)
    requires
        toc_in_order(st),
    ensures
        toc_in_order(md_step(st, e)),
{
    lemma_flushed_keeps(st);
    lemma_heading_closed_keeps(st);
    lemma_flushed_keeps(with_line(flushed(st), rule_line()));
    if let MdItem::Text(t) = e {
        let st1 = heading_text_added(st, t);
        lemma_block_lines_keep(st1, lines(t), 0, current_style(st1.styles));
    }
}

proof fn lemma_md_from_keeps(st: RenderView, es: Seq<MdItem>, i: int)
    requires
        toc_in_order(st),
        0 <= i,
    ensures
        toc_in_order(md_from(st, es, i)),
    decreases es.len() - i,
{
    if i < es.len() {
        lemma_md_step_keeps(st, es[i]);
        lemma_md_from_keeps(md_step(st, es[i]), es, i + 1);
    }
}

/// Rendering Markdown events gives a table of contents whose entries point
/// at lines of the rendered text (or just past its end), in order.
pub proof fn lemma_markdown_toc_in_order(es: Seq<MdItem>)
    ensures
        toc_in_order(md_rendered(es)),
{
    lemma_md_from_keeps(start_view(), es, 0);
    lemma_flushed_keeps(md_from(start_view(), es, 0));
}


// ---------------------------------------------------------------------------
// Lists
// ---------------------------------------------------------------------------
/// A nested list leaves the numbering of the lists around it as it was.
pub proof fn lemma_nested_list_keeps_numbering(st: RenderView, start: Option<u64>)
    requires
        st.lists.len() > 0,
    ensures
        list_closed(list_opened(st, start)).lists == st.lists,
{
    assert(flushed(st).lists == st.lists);
    assert(list_opened(st, start).lists.drop_last() =~= st.lists);
}

/// An item of a numbered list shows its number and the next item gets the
/// following one.
pub proof fn lemma_numbered_item(st: RenderView, n: u64)
    requires
        st.lists.len() > 0,
        st.lists.last() == Some(n),
        n < u64::MAX,
    ensures
        item_opened(st).spans.last().0 == bullet_text(st.lists.len(), Some(n)),
        item_opened(st).lists == st.lists.update(st.lists.len() - 1, Some((n + 1) as u64)),
{
    assert(flushed(st).lists == st.lists);
    assert((n + 1) % 0x1_0000_0000_0000_0000 == n + 1);
}

/// Opening a list and then an item, from any state: the item starts a
/// line of its own with the list's bullet at the new nesting depth, which
/// for a numbered list shows the list's start number; after that item
/// ends, the next item shows the number after it (a bulleted list keeps its
/// bullet).
pub proof fn lemma_list_items(st: RenderView, start: Option<u64>)
    ensures
        ({
            let opened = md_step(st, MdItem::Start(MdTag::List(start)));
            let first = md_step(opened, MdItem::Start(MdTag::Item));
            let second = md_step(
                md_step(first, MdItem::End(MdTagEnd::Item)),
                MdItem::Start(MdTag::Item),
            );
            let depth = (st.lists.len() + 1) as nat;
            &&& opened.lists == st.lists.push(start)
            &&& first.spans.len() == 1
            &&& first.spans[0].0 == bullet_text(depth, start)
            &&& second.spans.len() == 1
            &&& second.spans[0].0 == bullet_text(
                depth,
                match start {
                    Some(n) => Some(((n + 1) % 0x1_0000_0000_0000_0000) as u64),
                    None => None,
                },
            )
        }),
{
    let opened = md_step(st, MdItem::Start(MdTag::List(start)));
    assert(flushed(st).lists == st.lists);
    assert(opened.lists == st.lists.push(start));
    assert(opened.spans.len() == 0);
    let first = md_step(opened, MdItem::Start(MdTag::Item));
    assert(flushed(opened) == opened);
    assert(first.lists.len() == opened.lists.len());
    let ended = md_step(first, MdItem::End(MdTagEnd::Item));
    assert(ended.spans.len() == 0);
    assert(ended.lists == first.lists);
    assert(flushed(ended) == ended);
}

/// The number a run of decimal digits reads.
pub open spec fn digits_value(s: Seq<char>) -> int
    decreases s.len(),
{
    if s.len() == 0 {
        0
    } else {
        digits_value(s.drop_last()) * 10 + (s.last() as int - '0' as int)
    }
}

proof fn lemma_digit_char(d: nat)
    requires
        d < 10,
    ensures
        digit_char(d) as int - '0' as int == d,
        '0' <= digit_char(d) <= '9',
        d > 0 ==> digit_char(d) != '0',
{
}

/// The decimal form of a number is digits only, with no leading zero
/// (but for zero itself), and reads back as the number.
pub proof fn lemma_decimal_reads_back(n: nat)
    ensures
        decimal(n).len() > 0,
        forall|i: int| 0 <= i < decimal(n).len() ==> '0' <= #[trigger] decimal(n)[i] <= '9',
        decimal(n)[0] != '0' || n == 0,
        digits_value(decimal(n)) == n,
    decreases n,
{
    if n < 10 {
        lemma_digit_char(n);
        assert(decimal(n).drop_last() =~= Seq::<char>::empty());
        assert(decimal(n).last() == digit_char(n));
        assert(digits_value(decimal(n)) == digits_value(Seq::<char>::empty()) * 10 + (
        digit_char(n) as int - '0' as int));
    } else {
        lemma_decimal_reads_back(n / 10);
        lemma_digit_char(n % 10);
        let d = decimal(n / 10);
        assert(decimal(n) == d.push(digit_char(n % 10)));
        assert(decimal(n).drop_last() =~= d);
        assert forall|i: int| 0 <= i < decimal(n).len() implies '0' <= #[trigger] decimal(n)[i] <= '9' by {
            if i < d.len() {
                assert(decimal(n)[i] == d[i]);
            }
        }
        assert(decimal(n)[0] == d[0]);
        assert(decimal(n).last() == digit_char(n % 10));
        assert(digits_value(decimal(n)) == digits_value(d) * 10 + (n % 10));
        assert(n == (n / 10) * 10 + n % 10);
    }
}

proof fn lemma_indentation(k: nat)
    ensures
        crate::tree::indentation(k).len() == 2 * k,
        forall|i: int| 0 <= i < 2 * k ==> #[trigger] crate::tree::indentation(k)[i] == ' ',
    decreases k,
{
    if k > 0 {
        lemma_indentation((k - 1) as nat);
    }
}

/// The bullet of an item at nesting depth `depth` (1 for an outermost
/// list): two spaces per level below the first, then the item's number (in
/// decimal) and `. ` for a numbered list, or `• ` for a bulleted one.
pub proof fn lemma_bullet_shape(depth: nat, ordinal: Option<u64>)
    requires
        depth > 0,
    ensures
        ({
            let b = bullet_text(depth, ordinal);
            let w = 2 * (depth - 1);
            &&& forall|i: int| 0 <= i < w ==> #[trigger] b[i] == ' '
            &&& match ordinal {
                Some(n) => {
                    &&& b.len() == w + decimal(n as nat).len() + 2
                    &&& b.subrange(w, b.len() - 2) == decimal(n as nat)
                    &&& b[b.len() - 2] == '.'
                    &&& b[b.len() - 1] == ' '
                },
                None => b.len() == w + 2 && b[w] == '•' && b[w + 1] == ' ',
            }
        }),
{
    let k = (depth - 1) as nat;
    lemma_indentation(k);
    let ind = crate::tree::indentation(k);
    let b = bullet_text(depth, ordinal);
    assert forall|i: int| 0 <= i < 2 * k implies #[trigger] b[i] == ' ' by {
        assert(b[i] == ind[i]);
    }
    match ordinal {
        Some(n) => {
            let d = decimal(n as nat);
            assert(b == ind + (d + seq!['.', ' ']));
            assert(b.subrange(2 * k as int, b.len() - 2) =~= d);
        },
        None => {},
    }
}

} // verus!
