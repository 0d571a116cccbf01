use transcheck::linter::{LintError, LintErrorKind};
use transcheck::matcher::{
    GarbageLine, Line, Mismatch, MismatchLine, MismatchLines, MissingFile, MissingLine,
    ModifiedLine,
};
use transcheck::diffs::DiffItem;
use transcheck::printer::{annotate, marks, measure_marks, push_decimal, Printer, Span, Style};

fn line(number: usize, content: &str, last_both: usize) -> Line {
    Line {
        number,
        content: String::from(content),
        last_both,
        html_comment: false,
        code_not_comment: false,
    }
}

fn findings(lines: Vec<MismatchLine>) -> Mismatch {
    Mismatch::MismatchLines(MismatchLines {
        source_path: String::from("s.md"),
        target_path: String::from("t.md"),
        lines,
    })
}

fn text(spans: &[Span]) -> String {
    spans.iter().map(|s| s.text.as_str()).collect()
}

fn styled(spans: &[Span], style: Style) -> Vec<&str> {
    spans.iter().filter(|s| s.style == style).map(|s| s.text.as_str()).collect()
}

fn decimal(n: usize) -> String {
    let mut s = String::from(">");
    push_decimal(&mut s, n);
    s
}

#[test]
fn numbers_are_written_in_decimal() {
    assert_eq!(decimal(0), ">0");
    assert_eq!(decimal(7), ">7");
    assert_eq!(decimal(10), ">10");
    assert_eq!(decimal(4096), ">4096");
    assert_eq!(decimal(usize::MAX), format!(">{}", usize::MAX));
}

#[test]
fn clean_outcomes_print_nothing() {
    let (spans, ok) = Printer { verbose: false }.print_mismatch(&[findings(Vec::new())]);
    assert!(ok);
    assert_eq!(spans.len(), 0);
    let (spans, ok) = Printer { verbose: true }.print_mismatch(&[]);
    assert!(ok);
    assert_eq!(spans.len(), 0);
}

#[test]
fn a_missing_file_is_reported() {
    let outcomes = vec![
        findings(Vec::new()),
        Mismatch::MissingFile(MissingFile {
            source_path: String::from("o/a.md"),
            target_path: String::from("t/a.md"),
        }),
    ];
    let (spans, ok) = Printer { verbose: false }.print_mismatch(&outcomes);
    assert!(!ok);
    assert_eq!(
        text(&spans),
        "\nError: target path is not found\n    source path: o/a.md\n    target path: t/a.md\n\n"
    );
    assert_eq!(styled(&spans, Style::RedBold), vec!["Error"]);
    assert_eq!(styled(&spans, Style::WhiteBold), vec![": target path is not found"]);
    assert_eq!(styled(&spans, Style::White), vec!["o/a.md", "t/a.md"]);
}

#[test]
fn an_edited_line_is_shown_with_marks() {
    let outcomes = vec![findings(vec![MismatchLine::Modified(ModifiedLine {
        source: line(2, "bbb", 1),
        target: line(13, "b日bc", 1),
    })])];
    let (spans, ok) = Printer { verbose: false }.print_mismatch(&outcomes);
    assert!(!ok);
    assert_eq!(
        text(&spans),
        concat_lines(&[
            "",
            "Error: source line has been modified",
            " source --> s.md:2",
            "  |",
            "2 | bbb",
            "  |   ^",
            "  |",
            "",
            " target --> t.md:13",
            "   |",
            "13 | b日bc",
            "   |  ^^ ^",
            "   |",
            "",
        ])
    );
    assert_eq!(styled(&spans, Style::YellowBold), vec!["  ^", " ^^ ^"]);
    assert_eq!(
        styled(&spans, Style::BlueBold),
        vec![" source --> ", "  |", "2 | ", "  | ", "  |\n", " target --> ", "   |", "13 | ", "   | ", "   |\n"]
    );
}

fn concat_lines(lines: &[&str]) -> String {
    let mut s = String::new();
    for l in lines {
        s.push_str(l);
        s.push('\n');
    }
    s
}

#[test]
fn missing_lines_are_shown_with_a_hint() {
    let outcomes = vec![findings(vec![
        MismatchLine::Missing(MissingLine { source: line(9, "x", 4) }),
        MismatchLine::Missing(MissingLine { source: line(10, "y", 4) }),
    ])];
    let (spans, ok) = Printer { verbose: false }.print_mismatch(&outcomes);
    assert!(!ok);
    assert_eq!(
        text(&spans),
        concat_lines(&[
            "",
            "Error: lines has been inserted to the source file",
            " source --> s.md:9",
            "   |",
            "9  | x",
            "10 | y",
            "   |",
            "   = hint: The lines should be inserted at t.md:4",
            "",
        ])
    );
    assert_eq!(styled(&spans, Style::YellowBold), vec![" hint"]);
}

#[test]
fn garbage_lines_are_shown() {
    let outcomes = vec![findings(vec![
        MismatchLine::Garbage(GarbageLine { target: line(3, "xxx", 1) }),
        MismatchLine::Garbage(GarbageLine { target: line(4, "yyy", 1) }),
        MismatchLine::Garbage(GarbageLine { target: line(8, "zzz", 1) }),
    ])];
    let (spans, ok) = Printer { verbose: false }.print_mismatch(&outcomes);
    assert!(!ok);
    assert_eq!(
        text(&spans),
        concat_lines(&[
            "",
            "Error: lines has been removed from the source file",
            " target --> t.md:3",
            "  |",
            "3 | xxx",
            "4 | yyy",
            "  |",
            "",
            "Error: lines has been removed from the source file",
            " target --> t.md:8",
            "  |",
            "8 | zzz",
            "  |",
        ])
    );
}

#[test]
fn a_lint_error_is_shown_with_marks_under_the_place() {
    let errors = vec![LintError {
        kind: LintErrorKind::HalfParenWithNonAscii,
        path: String::from("t.md"),
        line: line(7, "foo (日本語) bar", 0),
        start: 4,
        end: 15,
    }];
    let (spans, ok) = Printer { verbose: false }.print_lint(&errors);
    assert!(!ok);
    assert_eq!(
        text(&spans),
        concat_lines(&[
            "",
            "Error: non-ascii string must have full-width paren",
            " target --> t.md:7",
            "  |",
            "7 | foo (日本語) bar",
            "  |     ^^^^^^^^",
            "  |",
        ])
    );
    let (spans, ok) = Printer { verbose: false }.print_lint(&[]);
    assert!(ok);
    assert_eq!(spans.len(), 0);
}

#[test]
fn each_kind_of_lint_error_has_its_message() {
    let message = |kind: LintErrorKind| -> String {
        let errors = vec![LintError {
            kind,
            path: String::from("t.md"),
            line: line(1, "abc", 0),
            start: 1,
            end: 2,
        }];
        let (spans, _) = Printer { verbose: false }.print_lint(&errors);
        spans[2].text.clone()
    };
    assert_eq!(
        message(LintErrorKind::EmphasisWithoutSpace),
        ": emphasis must have spaces before and after it"
    );
    assert_eq!(message(LintErrorKind::EmphasisMismatch), ": emphasis token is mismatched");
    assert_eq!(
        message(LintErrorKind::HalfParenWithNonAscii),
        ": non-ascii string must have full-width paren"
    );
    assert_eq!(
        message(LintErrorKind::FullParenWithoutNonAscii),
        ": ascii string must have half-width paren"
    );
}

#[test]
fn a_place_that_is_no_piece_of_the_line_gets_no_marks() {
    let show = |start: usize, end: usize| -> String {
        let errors = vec![LintError {
            kind: LintErrorKind::EmphasisMismatch,
            path: String::from("t.md"),
            line: line(1, "a日b", 0),
            start,
            end,
        }];
        let (spans, _) = Printer { verbose: false }.print_lint(&errors);
        let all = text(&spans);
        all.lines().nth(5).unwrap().to_string()
    };
    assert_eq!(show(1, 4), "  |  ^^");
    assert_eq!(show(0, 5), "  | ^^^^");
    assert_eq!(show(2, 4), "  | ");
    assert_eq!(show(1, 3), "  | ");
    assert_eq!(show(4, 1), "  | ");
    assert_eq!(show(1, 9), "  | ");
    assert_eq!(show(5, 5), "  |     ");
}

#[test]
fn marks_are_as_wide_as_the_characters_above_them() {
    let script = vec![
        DiffItem::Both('a', 'a'),
        DiffItem::Left('\u{65e5}'),
        DiffItem::Right('b'),
        DiffItem::Both('\u{672c}', '\u{672c}'),
        DiffItem::Right('\u{8a9e}'),
        DiffItem::Left('c'),
    ];
    let (source, target) = annotate(&script);
    assert_eq!(source, " ^^  ^");
    assert_eq!(target, " ^  ^^");
    let (source, target) = annotate(&Vec::new());
    assert_eq!(source, "");
    assert_eq!(target, "");
    assert_eq!(marks("abc", "abd"), (String::from("  ^"), String::from("  ^")));
    assert_eq!(marks("", "ab"), (String::new(), String::from("^^")));
}

#[test]
fn places_are_measured_in_columns() {
    assert_eq!(measure_marks("a\u{65e5}b", 1, 4), (1, 2));
    assert_eq!(measure_marks("a\u{65e5}b", 0, 0), (0, 0));
    assert_eq!(measure_marks("a\u{65e5}b", 4, 5), (3, 1));
    assert_eq!(measure_marks("a\u{65e5}b", 2, 4), (0, 0));
    assert_eq!(measure_marks("a\u{65e5}b", 1, 6), (0, 0));
}
