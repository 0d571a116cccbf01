//! Laying out the findings of a comparison, and the errors of the typographic
//! rules, as text in a few styles.

use vstd::prelude::*;
use vstd::string::{StrSliceExecFns, StringExecFns, StringSliceAdditionalSpecFns};
use vstd::utf8::{decode_utf8, encode_utf8, is_char_boundary};
use crate::diffs::{char_diff, chars_diff, diff_fits, fits, DiffItem};
use crate::linter::{error_views, LintError, LintErrorKind, LintErrorView};
use crate::matcher::{
    outcome_views, Line, LineView, Mismatch, MismatchLines, MismatchLinesView, MismatchView,
    MissingFile, MissingFileView,
};
use crate::util::{combine_line, combined, combined_views, ref_views, CombinedLine, CombinedLineView};

verus! {

/// Lays out findings and errors.
#[derive(Debug)]
pub struct Printer {
    pub verbose: bool,
}

/// How a piece of text is to be shown.
#[derive(Clone, Copy, Debug, PartialEq, Eq, Structural)]
pub enum Style {
    Plain,
    RedBold,
    WhiteBold,
    White,
    BlueBold,
    YellowBold,
}

/// A piece of text in one style.
#[derive(Clone, Debug)]
pub struct Span {
    pub style: Style,
    pub text: String,
}

/// What a [`Span`] stands for.
pub struct SpanView {
    pub style: Style,
    pub text: Seq<char>,
}

impl View for Span {
    type V = SpanView;

    open spec fn view(&self) -> SpanView {
        SpanView { style: self.style, text: self.text@ }
    }
}

/// The views of a sequence of spans.
pub open spec fn span_views(s: Seq<Span>) -> Seq<SpanView> {
    s.map_values(|p: Span| p@)
}

/// The number of terminal columns that a text takes.
pub uninterp spec fn text_width(s: Seq<char>) -> usize;

/// `console::measure_text_width`: the number of terminal columns that `s`
/// takes, as a function of the text alone.
#[verifier::external_body]
pub(crate) fn measure_width(s: &str) -> (w: usize)
    ensures
        w == text_width(s@),
{
    console::measure_text_width(s)
}

/// The digit for `d`.
pub open spec fn digit(d: nat) -> char {
    if d == 0 {
        '0'
    } else if d == 1 {
        '1'
    } else if d == 2 {
        '2'
    } else if d == 3 {
        '3'
    } else if d == 4 {
        '4'
    } else if d == 5 {
        '5'
    } else if d == 6 {
        '6'
    } else if d == 7 {
        '7'
    } else if d == 8 {
        '8'
    } else {
        '9'
    }
}

/// `n` in decimal digits.
pub open spec fn decimal(n: nat) -> Seq<char>
    decreases n,
{
    if n < 10 {
        seq![digit(n)]
    } else {
        decimal(n / 10).push(digit(n % 10))
    }
}

/// `n` times the character `c`.
pub open spec fn repeated(c: char, n: nat) -> Seq<char> {
    Seq::new(n, |i: int| c)
}

/// A span.
pub open spec fn span(style: Style, text: Seq<char>) -> SpanView {
    SpanView { style, text }
}

/// The end of a line.
pub open spec fn newline() -> SpanView {
    span(Style::Plain, seq!['\n'])
}

/// The line that opens a report: an empty line, then `Error: ` and the
/// message.
pub open spec fn headline(message: Seq<char>) -> Seq<SpanView> {
    seq![
        newline(),
        span(Style::RedBold, "Error"@),
        span(Style::WhiteBold, ": "@ + message),
        newline(),
    ]
}

/// The line that says where a line stands: the side, the path and the number.
pub open spec fn located(side: Seq<char>, path: Seq<char>, number: nat) -> Seq<SpanView> {
    seq![
        span(Style::BlueBold, side),
        span(Style::White, path + seq![':'] + decimal(number)),
        newline(),
    ]
}

/// An empty line of the margin.
pub open spec fn margin(width: nat) -> Seq<SpanView> {
    seq![span(Style::BlueBold, repeated(' ', width) + " |"@), newline()]
}

/// The last line of the margin, followed by an empty line.
pub open spec fn margin_end(width: nat) -> Seq<SpanView> {
    seq![span(Style::BlueBold, repeated(' ', width) + " |"@ + seq!['\n']), newline()]
}

/// The blanks that fill the number up to the width of the margin.
pub open spec fn padding(number: nat, width: nat) -> nat {
    if width >= decimal(number).len() {
        (width - decimal(number).len()) as nat
    } else {
        0
    }
}

/// A line of text with its number in a margin of the given width.
pub open spec fn numbered(number: nat, width: nat, content: Seq<char>) -> Seq<SpanView> {
    seq![
        span(
            Style::BlueBold,
            decimal(number) + repeated(' ', padding(number, width)) + " | "@,
        ),
        span(Style::White, content),
        newline(),
    ]
}

/// A line of marks under a line of text.
pub open spec fn marked(width: nat, indent: nat, marks: Seq<char>) -> Seq<SpanView> {
    seq![
        span(Style::BlueBold, repeated(' ', width) + " | "@),
        span(Style::Plain, repeated(' ', indent)),
        span(Style::YellowBold, marks),
        newline(),
    ]
}

/// The marks under the source line: blanks under what both lines share,
/// carets under what only the source has.
pub open spec fn source_marks(d: Seq<DiffItem<char>>) -> Seq<char>
    decreases d.len(),
{
    if d.len() == 0 {
        Seq::empty()
    } else {
        let before = source_marks(d.drop_last());
        match d.last() {
            DiffItem::Both(x, _) => before + repeated(' ', text_width(seq![x]) as nat),
            DiffItem::Left(x) => before + repeated('^', text_width(seq![x]) as nat),
            DiffItem::Right(_) => before,
        }
    }
}

/// The marks under the line of the translation: blanks under what both
/// lines share, carets under what only the translation has.
pub open spec fn target_marks(d: Seq<DiffItem<char>>) -> Seq<char>
    decreases d.len(),
{
    if d.len() == 0 {
        Seq::empty()
    } else {
        let before = target_marks(d.drop_last());
        match d.last() {
            DiffItem::Both(x, _) => before + repeated(' ', text_width(seq![x]) as nat),
            DiffItem::Left(_) => before,
            DiffItem::Right(x) => before + repeated('^', text_width(seq![x]) as nat),
        }
    }
}

/// The marks under two lines; none if the lines are too long to be lined up.
pub open spec fn marks_of(source: Seq<char>, target: Seq<char>) -> (Seq<char>, Seq<char>) {
    if diff_fits(source.len(), target.len()) {
        (source_marks(char_diff(source, target)), target_marks(char_diff(source, target)))
    } else {
        (Seq::empty(), Seq::empty())
    }
}

/// One side of an edited line: where it stands, the line, and the marks
/// under it.
pub open spec fn side_of(label: Seq<char>, path: Seq<char>, line: LineView, marks: Seq<char>)
    -> Seq<SpanView> {
    let width = decimal(line.number).len();
    located(label, path, line.number) + margin(width) + numbered(
        line.number,
        width,
        line.content,
    ) + marked(width, 0, marks) + margin_end(width)
}

/// The report of an edited line.
pub open spec fn modified_report(paths: MismatchLinesView, source: LineView, target: LineView)
    -> Seq<SpanView> {
    let marks = marks_of(source.content, target.content);
    headline("source line has been modified"@) + side_of(
        " source --> "@,
        paths.source_path,
        source,
        marks.0,
    ) + side_of(" target --> "@, paths.target_path, target, marks.1)
}

/// The widest number among the first `n` lines.
pub open spec fn number_width(lines: Seq<LineView>, n: int) -> nat
    decreases n,
{
    if n <= 0 {
        0
    } else {
        let before = number_width(lines, n - 1);
        let w = decimal(lines[n - 1].number).len();
        if w > before {
            w
        } else {
            before
        }
    }
}

/// The first `n` lines, each with its number.
pub open spec fn listing(lines: Seq<LineView>, n: int, width: nat) -> Seq<SpanView>
    decreases n,
{
    if n <= 0 {
        Seq::empty()
    } else {
        listing(lines, n - 1, width) + numbered(lines[n - 1].number, width, lines[n - 1].content)
    }
}

/// A run of lines between two lines of margin.
pub open spec fn framed(lines: Seq<LineView>) -> Seq<SpanView> {
    let width = number_width(lines, lines.len() as int);
    margin(width) + listing(lines, lines.len() as int, width) + margin(width)
}

/// The hint that says where missing lines belong.
pub open spec fn hint(width: nat, path: Seq<char>, anchor: nat) -> Seq<SpanView> {
    seq![
        span(Style::BlueBold, repeated(' ', width) + " ="@),
        span(Style::YellowBold, " hint"@),
        span(
            Style::WhiteBold,
            ": The lines should be inserted at "@ + path + seq![':'] + decimal(anchor) + seq![
                '\n',
            ],
        ),
        newline(),
    ]
}

/// The report of a run of missing lines; nothing for an empty run.
pub open spec fn missing_report(paths: MismatchLinesView, sources: Seq<LineView>) -> Seq<
    SpanView,
> {
    if sources.len() == 0 {
        Seq::empty()
    } else {
        headline("lines has been inserted to the source file"@) + located(
            " source --> "@,
            paths.source_path,
            sources[0].number,
        ) + framed(sources) + hint(
            number_width(sources, sources.len() as int),
            paths.target_path,
            sources[0].last_both,
        )
    }
}

/// The report of a run of garbage lines; nothing for an empty run.
pub open spec fn garbage_report(paths: MismatchLinesView, targets: Seq<LineView>) -> Seq<
    SpanView,
> {
    if targets.len() == 0 {
        Seq::empty()
    } else {
        headline("lines has been removed from the source file"@) + located(
            " target --> "@,
            paths.target_path,
            targets[0].number,
        ) + framed(targets)
    }
}

/// The report of a translation that does not exist.
pub open spec fn missing_file_report(f: MissingFileView) -> Seq<SpanView> {
    headline("target path is not found"@) + seq![
        span(Style::Plain, "    source path: "@),
        span(Style::White, f.source_path),
        newline(),
        span(Style::Plain, "    target path: "@),
        span(Style::White, f.target_path),
        newline(),
        newline(),
    ]
}

/// The report of one combined finding.
pub open spec fn combined_report(paths: MismatchLinesView, c: CombinedLineView) -> Seq<SpanView> {
    match c {
        CombinedLineView::Modified { source, target } => modified_report(paths, source, target),
        CombinedLineView::Missing(run) => missing_report(paths, run),
        CombinedLineView::Garbage(run) => garbage_report(paths, run),
    }
}

/// The reports of the first `n` combined findings.
pub open spec fn combined_reports(paths: MismatchLinesView, c: Seq<CombinedLineView>, n: int)
    -> Seq<SpanView>
    decreases n,
{
    if n <= 0 {
        Seq::empty()
    } else {
        combined_reports(paths, c, n - 1) + combined_report(paths, c[n - 1])
    }
}

/// The report of the findings for one pair of files.
pub open spec fn lines_report(m: MismatchLinesView) -> Seq<SpanView> {
    let c = combined(m.lines);
    combined_reports(m, c, c.len() as int)
}

/// The report of one outcome.
pub open spec fn outcome_report(m: MismatchView) -> Seq<SpanView> {
    match m {
        MismatchView::MissingFile(f) => missing_file_report(f),
        MismatchView::MismatchLines(l) => lines_report(l),
    }
}

/// An outcome without complaint: the translation exists and has no findings.
pub open spec fn clean(m: MismatchView) -> bool {
    m matches MismatchView::MismatchLines(l) && l.lines.len() == 0
}

/// The reports of the first `n` outcomes.
pub open spec fn outcome_reports(m: Seq<MismatchView>, n: int) -> Seq<SpanView>
    decreases n,
{
    if n <= 0 {
        Seq::empty()
    } else {
        outcome_reports(m, n - 1) + outcome_report(m[n - 1])
    }
}

/// What is wrong, in words.
pub open spec fn lint_message(kind: LintErrorKind) -> Seq<char> {
    match kind {
        LintErrorKind::EmphasisWithoutSpace => "emphasis must have spaces before and after it"@,
        LintErrorKind::EmphasisMismatch => "emphasis token is mismatched"@,
        LintErrorKind::HalfParenWithNonAscii => "non-ascii string must have full-width paren"@,
        LintErrorKind::FullParenWithoutNonAscii => "ascii string must have half-width paren"@,
    }
}

/// The bytes `start..end` of the text are a piece of it that starts and ends
/// between two characters.
pub open spec fn on_boundaries(b: Seq<u8>, start: int, end: int) -> bool {
    &&& 0 <= start <= end
    &&& is_char_boundary(b, start)
    &&& is_char_boundary(b.subrange(start, b.len() as int), end - start)
}

/// How far the marks under an error are indented, and how many there are:
/// the widths of the text before the place and of the place. Both are zero
/// for a place that is not a piece of the line.
pub open spec fn lint_marks(content: Seq<char>, start: int, end: int) -> (nat, nat) {
    let b = encode_utf8(content);
    if on_boundaries(b, start, end) {
        (
            text_width(decode_utf8(b.subrange(0, start))) as nat,
            text_width(decode_utf8(b.subrange(start, end))) as nat,
        )
    } else {
        (0, 0)
    }
}

/// The report of one error.
pub open spec fn lint_report(e: LintErrorView) -> Seq<SpanView> {
    let width = decimal(e.line.number).len();
    let marks = lint_marks(e.line.content, e.start as int, e.end as int);
    headline(lint_message(e.kind)) + located(" target --> "@, e.path, e.line.number) + margin(
        width,
    ) + numbered(e.line.number, width, e.line.content) + marked(
        width,
        marks.0,
        repeated('^', marks.1),
    ) + margin(width)
}

/// The reports of the first `n` errors.
pub open spec fn lint_reports(e: Seq<LintErrorView>, n: int) -> Seq<SpanView>
    decreases n,
{
    if n <= 0 {
        Seq::empty()
    } else {
        lint_reports(e, n - 1) + lint_report(e[n - 1])
    }
}

/// Appends `n` times the character `c`.
fn push_repeated(out: &mut String, c: char, n: usize)
    ensures
        final(out)@ == old(out)@ + repeated(c, n as nat),
{
    let mut i: usize = 0;
    assert(out@ =~= old(out)@ + repeated(c, 0));
    while i < n
        invariant
            i <= n,
            out@ == old(out)@ + repeated(c, i as nat),
        decreases n - i,
    {
        out.push(c);
        i += 1;
        assert(out@ =~= old(out)@ + repeated(c, i as nat));
    }
}

/// The digit for `d`.
fn digit_of(d: usize) -> (c: char)
    requires
        d < 10,
    ensures
        c == digit(d as nat),
{
    if d == 0 {
        '0'
    } else if d == 1 {
        '1'
    } else if d == 2 {
        '2'
    } else if d == 3 {
        '3'
    } else if d == 4 {
        '4'
    } else if d == 5 {
        '5'
    } else if d == 6 {
        '6'
    } else if d == 7 {
        '7'
    } else if d == 8 {
        '8'
    } else {
        '9'
    }
}

/// Appends `n` in decimal digits.
pub fn push_decimal(out: &mut String, n: usize)
    ensures
        final(out)@ == old(out)@ + decimal(n as nat),
    decreases n,
{
    if n >= 10 {
        push_decimal(out, n / 10);
    }
    out.push(digit_of(n % 10));
    assert(out@ =~= old(out)@ + decimal(n as nat));
}

/// The number of decimal digits of `n`.
fn decimal_width(n: usize) -> (w: usize)
    ensures
        w == decimal(n as nat).len(),
        w >= 1,
{
    let mut s = String::new();
    push_decimal(&mut s, n);
    proof {
        assert(s@ =~= decimal(n as nat));
        lemma_decimal_len(n as nat);
    }
    s.as_str().unicode_len()
}

proof fn lemma_decimal_len(n: nat)
    ensures
        decimal(n).len() >= 1,
    decreases n,
{
    if n >= 10 {
        lemma_decimal_len(n / 10);
    }
}

/// Appends a span.
fn put(out: &mut Vec<Span>, style: Style, text: String)
    ensures
        span_views(final(out)@) == span_views(old(out)@).push(span(style, text@)),
{
    let s = Span { style, text };
    out.push(s);
    assert(span_views(out@) =~= span_views(old(out)@).push(s@));
}

/// Appends the end of a line.
fn put_newline(out: &mut Vec<Span>)
    ensures
        span_views(final(out)@) == span_views(old(out)@).push(newline()),
{
    let mut s = String::new();
    s.push('\n');
    assert(s@ =~= seq!['\n']);
    put(out, Style::Plain, s);
}

fn put_headline(out: &mut Vec<Span>, message: &str)
    ensures
        span_views(final(out)@) == span_views(old(out)@) + headline(message@),
{
    put_newline(out);
    put(out, Style::RedBold, "Error".to_owned());
    let mut m = ": ".to_owned();
    m.append(message);
    put(out, Style::WhiteBold, m);
    put_newline(out);
    assert(span_views(out@) =~= span_views(old(out)@) + headline(message@));
}

fn put_located(out: &mut Vec<Span>, side: &str, path: &str, number: usize)
    ensures
        span_views(final(out)@) == span_views(old(out)@) + located(side@, path@, number as nat),
{
    put(out, Style::BlueBold, side.to_owned());
    let mut p = path.to_owned();
    p.push(':');
    push_decimal(&mut p, number);
    assert(p@ =~= path@ + seq![':'] + decimal(number as nat));
    put(out, Style::White, p);
    put_newline(out);
    assert(span_views(out@) =~= span_views(old(out)@) + located(side@, path@, number as nat));
}

fn put_margin(out: &mut Vec<Span>, width: usize)
    ensures
        span_views(final(out)@) == span_views(old(out)@) + margin(width as nat),
{
    let mut s = String::new();
    push_repeated(&mut s, ' ', width);
    s.append(" |");
    assert(s@ =~= repeated(' ', width as nat) + " |"@);
    put(out, Style::BlueBold, s);
    put_newline(out);
    assert(span_views(out@) =~= span_views(old(out)@) + margin(width as nat));
}

fn put_margin_end(out: &mut Vec<Span>, width: usize)
    ensures
        span_views(final(out)@) == span_views(old(out)@) + margin_end(width as nat),
{
    let mut s = String::new();
    push_repeated(&mut s, ' ', width);
    s.append(" |");
    s.push('\n');
    assert(s@ =~= repeated(' ', width as nat) + " |"@ + seq!['\n']);
    put(out, Style::BlueBold, s);
    put_newline(out);
    assert(span_views(out@) =~= span_views(old(out)@) + margin_end(width as nat));
}

fn put_numbered(out: &mut Vec<Span>, number: usize, width: usize, content: &str)
    ensures
        span_views(final(out)@) == span_views(old(out)@) + numbered(
            number as nat,
            width as nat,
            content@,
        ),
{
    let w = decimal_width(number);
    let pad: usize = if width >= w {
        width - w
    } else {
        0
    };
    let mut s = String::new();
    push_decimal(&mut s, number);
    push_repeated(&mut s, ' ', pad);
    s.append(" | ");
    assert(s@ =~= decimal(number as nat) + repeated(' ', padding(number as nat, width as nat))
        + " | "@);
    put(out, Style::BlueBold, s);
    put(out, Style::White, content.to_owned());
    put_newline(out);
    assert(span_views(out@) =~= span_views(old(out)@) + numbered(
        number as nat,
        width as nat,
        content@,
    ));
}

fn put_marked(out: &mut Vec<Span>, width: usize, indent: usize, marks: String)
    ensures
        span_views(final(out)@) == span_views(old(out)@) + marked(
            width as nat,
            indent as nat,
            marks@,
        ),
{
    let mut s = String::new();
    push_repeated(&mut s, ' ', width);
    s.append(" | ");
    assert(s@ =~= repeated(' ', width as nat) + " | "@);
    put(out, Style::BlueBold, s);
    let mut blank = String::new();
    push_repeated(&mut blank, ' ', indent);
    assert(blank@ =~= repeated(' ', indent as nat));
    put(out, Style::Plain, blank);
    put(out, Style::YellowBold, marks);
    put_newline(out);
    assert(span_views(out@) =~= span_views(old(out)@) + marked(
        width as nat,
        indent as nat,
        marks@,
    ));
}

/// The width of one character.
fn width_of(c: char) -> (w: usize)
    ensures
        w == text_width(seq![c]),
{
    let mut one = String::new();
    one.push(c);
    assert(one@ =~= seq![c]);
    measure_width(one.as_str())
}

/// The marks under two lines that were lined up by `d`: blanks under what
/// both share, carets under what only one has, each as wide as the character
/// above it.
pub fn annotate(d: &Vec<DiffItem<char>>) -> (r: (String, String))
    ensures
        r.0@ == source_marks(d@),
        r.1@ == target_marks(d@),
{
    let mut source_anno = String::new();
    let mut target_anno = String::new();
    let mut i: usize = 0;
    assert(d@.take(0) =~= Seq::empty());
    while i < d.len()
        invariant
            i <= d.len(),
            source_anno@ == source_marks(d@.take(i as int)),
            target_anno@ == target_marks(d@.take(i as int)),
        decreases d.len() - i,
    {
        assert(d@.take(i + 1).drop_last() =~= d@.take(i as int));
        match &d[i] {
            DiffItem::Both(x, _) => {
                let w = width_of(*x);
                push_repeated(&mut source_anno, ' ', w);
                push_repeated(&mut target_anno, ' ', w);
            },
            DiffItem::Left(x) => {
                let w = width_of(*x);
                push_repeated(&mut source_anno, '^', w);
            },
            DiffItem::Right(x) => {
                let w = width_of(*x);
                push_repeated(&mut target_anno, '^', w);
            },
        }
        i += 1;
    }
    assert(d@.take(d.len() as int) =~= d@);
    (source_anno, target_anno)
}

/// The marks under two lines; none if the lines are too long to be lined up.
pub fn marks(source: &str, target: &str) -> (r: (String, String))
    ensures
        (r.0@, r.1@) == marks_of(source@, target@),
{
    if !fits(source.unicode_len(), target.unicode_len()) {
        return (String::new(), String::new());
    }
    let d = chars_diff(source, target);
    annotate(&d)
}

fn put_side(out: &mut Vec<Span>, label: &str, path: &str, line: &Line, marks: String)
    ensures
        span_views(final(out)@) == span_views(old(out)@) + side_of(
            label@,
            path@,
            line@,
            marks@,
        ),
{
    let width = decimal_width(line.number);
    put_located(out, label, path, line.number);
    put_margin(out, width);
    put_numbered(out, line.number, width, line.content.as_str());
    put_marked(out, width, 0, marks);
    put_margin_end(out, width);
    assert(span_views(out@) =~= span_views(old(out)@) + side_of(label@, path@, line@, marks@));
}

/// The widest number among `lines`.
fn widest_number(lines: &Vec<&Line>) -> (w: usize)
    ensures
        w == number_width(ref_views(lines@), lines@.len() as int),
{
    let mut w: usize = 0;
    let mut i: usize = 0;
    while i < lines.len()
        invariant
            i <= lines.len(),
            w == number_width(ref_views(lines@), i as int),
        decreases lines.len() - i,
    {
        assert(ref_views(lines@)[i as int] == lines@[i as int]@);
        let n = decimal_width(lines[i].number);
        if n > w {
            w = n;
        }
        i += 1;
    }
    w
}

fn put_framed(out: &mut Vec<Span>, lines: &Vec<&Line>)
    ensures
        span_views(final(out)@) == span_views(old(out)@) + framed(ref_views(lines@)),
{
    let ghost all = ref_views(lines@);
    let width = widest_number(lines);
    put_margin(out, width);
    let ghost start = span_views(out@);
    let mut i: usize = 0;
    assert(span_views(out@) =~= start + listing(all, 0, width as nat));
    while i < lines.len()
        invariant
            i <= lines.len(),
            all == ref_views(lines@),
            span_views(out@) == start + listing(all, i as int, width as nat),
        decreases lines.len() - i,
    {
        assert(all[i as int] == lines@[i as int]@);
        put_numbered(out, lines[i].number, width, lines[i].content.as_str());
        i += 1;
        assert(span_views(out@) =~= start + listing(all, i as int, width as nat));
    }
    put_margin(out, width);
    assert(span_views(out@) =~= span_views(old(out)@) + framed(all));
}

fn put_hint(out: &mut Vec<Span>, width: usize, path: &str, anchor: usize)
    ensures
        span_views(final(out)@) == span_views(old(out)@) + hint(width as nat, path@, anchor as nat),
{
    let mut s = String::new();
    push_repeated(&mut s, ' ', width);
    s.append(" =");
    assert(s@ =~= repeated(' ', width as nat) + " ="@);
    put(out, Style::BlueBold, s);
    put(out, Style::YellowBold, " hint".to_owned());
    let mut m = ": The lines should be inserted at ".to_owned();
    m.append(path);
    m.push(':');
    push_decimal(&mut m, anchor);
    m.push('\n');
    assert(m@ =~= ": The lines should be inserted at "@ + path@ + seq![':'] + decimal(
        anchor as nat,
    ) + seq!['\n']);
    put(out, Style::WhiteBold, m);
    put_newline(out);
    assert(span_views(out@) =~= span_views(old(out)@) + hint(width as nat, path@, anchor as nat));
}

/// The widths of the text before the bytes `start..end` of `content` and of
/// those bytes; zero both if the bytes are no piece of the text.
pub fn measure_marks(content: &str, start: usize, end: usize) -> (r: (usize, usize))
    ensures
        (r.0 as nat, r.1 as nat) == lint_marks(content@, start as int, end as int),
{
    broadcast use vstd::utf8::encode_utf8_decode_utf8;

    if start > end || !content.is_char_boundary(start) {
        return (0, 0);
    }
    let ghost b = encode_utf8(content@);
    proof {
        vstd::utf8::encode_utf8_valid_utf8(content@);
    }
    assert(start <= b.len());
    let (head, rest) = content.split_at(start);
    assert(rest.spec_bytes() == b.subrange(start as int, b.len() as int));
    if !rest.is_char_boundary(end - start) {
        return (0, 0);
    }
    proof {
        vstd::utf8::encode_utf8_valid_utf8(rest@);
    }
    assert(end - start <= rest.spec_bytes().len());
    let (place, _) = rest.split_at(end - start);
    assert(place.spec_bytes() =~= b.subrange(start as int, end as int));
    assert(decode_utf8(encode_utf8(head@)) == head@);
    assert(decode_utf8(encode_utf8(place@)) == place@);
    (measure_width(head), measure_width(place))
}

impl Printer {
    /// Lays out what was found for each pair of files. Returns the text and
    /// whether there is no complaint: every translation exists and has no
    /// findings.
    pub fn print_mismatch(&self, mismatches: &[Mismatch]) -> (r: (Vec<Span>, bool))
        ensures
            span_views(r.0@) == outcome_reports(
                outcome_views(mismatches@),
                mismatches@.len() as int,
            ),
            r.1 == forall|i: int|
                0 <= i < mismatches@.len() ==> clean(#[trigger] outcome_views(mismatches@)[i]),
    {
        let ghost all = outcome_views(mismatches@);
        let mut out: Vec<Span> = Vec::new();
        let mut ret = true;
        let mut i: usize = 0;
        assert(span_views(out@) =~= Seq::empty());
        while i < mismatches.len()
            invariant
                i <= mismatches.len(),
                all == outcome_views(mismatches@),
                span_views(out@) == outcome_reports(all, i as int),
                ret == forall|j: int| 0 <= j < i ==> clean(#[trigger] all[j]),
            decreases mismatches.len() - i,
        {
            assert(all[i as int] == mismatches@[i as int]@);
            let ok = match &mismatches[i] {
                Mismatch::MissingFile(x) => self.print_missing_file(&mut out, x),
                Mismatch::MismatchLines(x) => self.print_mismatch_lines(&mut out, x),
            };
            assert(ok == clean(all[i as int]));
            ret = ret && ok;
            i += 1;
        }
        (out, ret)
    }

    /// Lays out the errors of the typographic rules. Returns the text and
    /// whether there is no error.
    pub fn print_lint(&self, lint_errors: &[LintError]) -> (r: (Vec<Span>, bool))
        ensures
            span_views(r.0@) == lint_reports(error_views(lint_errors@), lint_errors@.len() as int),
            r.1 == (lint_errors@.len() == 0),
    {
        let ghost all = error_views(lint_errors@);
        let mut out: Vec<Span> = Vec::new();
        let mut i: usize = 0;
        assert(span_views(out@) =~= Seq::empty());
        while i < lint_errors.len()
            invariant
                i <= lint_errors.len(),
                all == error_views(lint_errors@),
                span_views(out@) == lint_reports(all, i as int),
            decreases lint_errors.len() - i,
        {
            assert(all[i as int] == lint_errors@[i as int]@);
            self.print_lint_error(&mut out, &lint_errors[i]);
            i += 1;
        }
        (out, lint_errors.len() == 0)
    }

    /// Appends the report of a translation that does not exist. Returns
    /// `false`: this is a complaint.
    pub fn print_missing_file(&self, out: &mut Vec<Span>, missing: &MissingFile) -> (ok: bool)
        ensures
            span_views(final(out)@) == span_views(old(out)@) + missing_file_report(missing@),
            !ok,
    {
        put_headline(out, "target path is not found");
        put(out, Style::Plain, "    source path: ".to_owned());
        put(out, Style::White, missing.source_path.clone());
        put_newline(out);
        put(out, Style::Plain, "    target path: ".to_owned());
        put(out, Style::White, missing.target_path.clone());
        put_newline(out);
        put_newline(out);
        assert(span_views(out@) =~= span_views(old(out)@) + missing_file_report(missing@));
        false
    }

    /// Appends the report of the findings for one pair of files. Returns
    /// whether there are none.
    pub fn print_mismatch_lines(&self, out: &mut Vec<Span>, mismatch: &MismatchLines) -> (ok: bool)
        ensures
            span_views(final(out)@) == span_views(old(out)@) + lines_report(mismatch@),
            ok == (mismatch@.lines.len() == 0),
    {
        let lines = combine_line(mismatch);
        let ghost all = combined_views(lines@);
        let mut i: usize = 0;
        assert(span_views(out@) =~= span_views(old(out)@) + combined_reports(mismatch@, all, 0));
        while i < lines.len()
            invariant
                i <= lines.len(),
                all == combined_views(lines@),
                span_views(out@) == span_views(old(out)@) + combined_reports(
                    mismatch@,
                    all,
                    i as int,
                ),
            decreases lines.len() - i,
        {
            assert(all[i as int] == lines@[i as int]@);
            match &lines[i] {
                CombinedLine::Modified((x, y)) => {
                    self.print_modified_line(out, mismatch, x, y);
                },
                CombinedLine::Missing(x) => {
                    self.print_missing_line(out, mismatch, x);
                },
                CombinedLine::Garbage(x) => {
                    self.print_garbage_line(out, mismatch, x);
                },
            }
            i += 1;
            assert(span_views(out@) =~= span_views(old(out)@) + combined_reports(
                mismatch@,
                all,
                i as int,
            ));
        }
        mismatch.lines.len() == 0
    }

    /// Appends the report of an edited line: both lines, with marks under
    /// what differs.
    pub fn print_modified_line(
        &self,
        out: &mut Vec<Span>,
        mismatch: &MismatchLines,
        source: &Line,
        target: &Line,
    )
        ensures
            span_views(final(out)@) == span_views(old(out)@) + modified_report(
                mismatch@,
                source@,
                target@,
            ),
    {
        let (source_anno, target_anno) = marks(source.content.as_str(), target.content.as_str());
        put_headline(out, "source line has been modified");
        put_side(out, " source --> ", mismatch.source_path.as_str(), source, source_anno);
        put_side(out, " target --> ", mismatch.target_path.as_str(), target, target_anno);
        assert(span_views(out@) =~= span_views(old(out)@) + modified_report(
            mismatch@,
            source@,
            target@,
        ));
    }

    /// Appends the report of a run of missing lines, with a hint where they
    /// belong.
    pub fn print_missing_line(
        &self,
        out: &mut Vec<Span>,
        mismatch: &MismatchLines,
        sources: &Vec<&Line>,
    )
        ensures
            span_views(final(out)@) == span_views(old(out)@) + missing_report(
                mismatch@,
                ref_views(sources@),
            ),
    {
        if sources.len() == 0 {
            assert(span_views(out@) =~= span_views(old(out)@) + Seq::empty());
            return ;
        }
        assert(ref_views(sources@)[0] == sources@[0]@);
        put_headline(out, "lines has been inserted to the source file");
        put_located(out, " source --> ", mismatch.source_path.as_str(), sources[0].number);
        put_framed(out, sources);
        put_hint(
            out,
            widest_number(sources),
            mismatch.target_path.as_str(),
            sources[0].last_both,
        );
        assert(span_views(out@) =~= span_views(old(out)@) + missing_report(
            mismatch@,
            ref_views(sources@),
        ));
    }

    /// Appends the report of a run of garbage lines.
    pub fn print_garbage_line(
        &self,
        out: &mut Vec<Span>,
        mismatch: &MismatchLines,
        targets: &Vec<&Line>,
    )
        ensures
            span_views(final(out)@) == span_views(old(out)@) + garbage_report(
                mismatch@,
                ref_views(targets@),
            ),
    {
        if targets.len() == 0 {
            assert(span_views(out@) =~= span_views(old(out)@) + Seq::empty());
            return ;
        }
        assert(ref_views(targets@)[0] == targets@[0]@);
        put_headline(out, "lines has been removed from the source file");
        put_located(out, " target --> ", mismatch.target_path.as_str(), targets[0].number);
        put_framed(out, targets);
        assert(span_views(out@) =~= span_views(old(out)@) + garbage_report(
            mismatch@,
            ref_views(targets@),
        ));
    }

    /// Appends the report of one error: the line, with marks under the
    /// place.
    pub fn print_lint_error(&self, out: &mut Vec<Span>, error: &LintError)
        ensures
            span_views(final(out)@) == span_views(old(out)@) + lint_report(error@),
    {
        let message = match error.kind {
            LintErrorKind::EmphasisWithoutSpace => "emphasis must have spaces before and after it",
            LintErrorKind::EmphasisMismatch => "emphasis token is mismatched",
            LintErrorKind::HalfParenWithNonAscii => "non-ascii string must have full-width paren",
            LintErrorKind::FullParenWithoutNonAscii => "ascii string must have half-width paren",
        };
        let width = decimal_width(error.line.number);
        let (before_mark, mark) = measure_marks(
            error.line.content.as_str(),
            error.start,
            error.end,
        );
        let mut carets = String::new();
        push_repeated(&mut carets, '^', mark);
        assert(carets@ =~= repeated('^', mark as nat));
        put_headline(out, message);
        put_located(out, " target --> ", error.path.as_str(), error.line.number);
        put_margin(out, width);
        put_numbered(out, error.line.number, width, error.line.content.as_str());
        put_marked(out, width, before_mark, carets);
        put_margin(out, width);
        assert(span_views(out@) =~= span_views(old(out)@) + lint_report(error@));
    }
}

} // verus!
