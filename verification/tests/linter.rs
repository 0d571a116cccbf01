use transcheck::config::{
    default_code_comment_header, default_markdown_comment_begin, default_markdown_comment_end,
    default_similar_threshold, Config, ConfigLinter, ConfigMatcher,
};
use transcheck::linter::{find_emphasis, find_paren, Finding, LintError, LintErrorKind, Linter};
use transcheck::matcher::{Line, TargetOnly};

fn file(lines: &[&str]) -> Vec<TargetOnly> {
    vec![TargetOnly {
        target_path: String::from("t.md"),
        lines: lines
            .iter()
            .enumerate()
            .map(|(i, l)| Line {
                number: i + 1,
                content: String::from(*l),
                last_both: 0,
                html_comment: false,
                code_not_comment: false,
            })
            .collect(),
    }]
}

fn all() -> Linter {
    Linter { enable_emphasis_check: true, enable_half_paren_check: true, enable_full_paren_check: true }
}

fn show(errors: &[LintError]) -> Vec<(LintErrorKind, usize, usize, usize)> {
    errors.iter().map(|e| (e.kind, e.line.number, e.start, e.end)).collect()
}

#[test]
fn emphasis_must_be_set_off_by_spaces() {
    let errors = all().check(file(&["これは**強調**です", "a **b** c", "**b**", "x*y* z", "a *b*c"]));
    assert_eq!(
        show(&errors),
        vec![
            (LintErrorKind::EmphasisWithoutSpace, 1, 9, 19),
            (LintErrorKind::EmphasisWithoutSpace, 4, 1, 4),
            (LintErrorKind::EmphasisWithoutSpace, 5, 2, 5),
        ]
    );
    assert_eq!(errors[0].path, "t.md");
    assert_eq!(errors[0].line.content, "これは**強調**です");
}

#[test]
fn emphasis_markers_must_agree() {
    let errors = all().check(file(&["**b* c", "a *b** c", "*b*"]));
    assert_eq!(
        show(&errors),
        vec![(LintErrorKind::EmphasisMismatch, 1, 0, 4), (LintErrorKind::EmphasisMismatch, 2, 2, 6)]
    );
}

#[test]
fn half_width_parentheses_hold_ascii() {
    let errors = all().check(file(&["foo (日本語) bar", "foo (bar)", "(a)(あ)"]));
    assert_eq!(
        show(&errors),
        vec![
            (LintErrorKind::HalfParenWithNonAscii, 1, 4, 15),
            (LintErrorKind::HalfParenWithNonAscii, 3, 3, 8),
        ]
    );
}

#[test]
fn full_width_parentheses_hold_more_than_ascii() {
    let errors = all().check(file(&["（abc）", "（日本）", "あ（）"]));
    assert_eq!(
        show(&errors),
        vec![
            (LintErrorKind::FullParenWithoutNonAscii, 1, 0, 9),
            (LintErrorKind::FullParenWithoutNonAscii, 3, 3, 9),
        ]
    );
}

#[test]
fn only_enabled_rules_are_checked() {
    let lines = ["x**b**（a） (あ)"];
    assert_eq!(Linter { enable_emphasis_check: false, enable_half_paren_check: false, enable_full_paren_check: false }.check(file(&lines)).len(), 0);
    let kinds = |l: Linter| -> Vec<LintErrorKind> { l.check(file(&lines)).iter().map(|e| e.kind).collect() };
    assert_eq!(
        kinds(all()),
        vec![
            LintErrorKind::EmphasisWithoutSpace,
            LintErrorKind::HalfParenWithNonAscii,
            LintErrorKind::FullParenWithoutNonAscii,
        ]
    );
    assert_eq!(
        kinds(Linter { enable_emphasis_check: true, enable_half_paren_check: false, enable_full_paren_check: false }),
        vec![LintErrorKind::EmphasisWithoutSpace]
    );
    assert_eq!(
        kinds(Linter { enable_emphasis_check: false, enable_half_paren_check: true, enable_full_paren_check: false }),
        vec![LintErrorKind::HalfParenWithNonAscii]
    );
    assert_eq!(
        kinds(Linter { enable_emphasis_check: false, enable_half_paren_check: false, enable_full_paren_check: true }),
        vec![LintErrorKind::FullParenWithoutNonAscii]
    );
    assert_eq!(all().check(Vec::new()).len(), 0);
}

#[test]
fn errors_come_file_by_file() {
    let mut files = file(&["(あ)"]);
    files.push(TargetOnly {
        target_path: String::from("u.md"),
        lines: file(&["ok", "（a）"]).remove(0).lines,
    });
    let errors = all().check(files);
    assert_eq!(errors.len(), 2);
    assert_eq!(errors[0].path, "t.md");
    assert_eq!(errors[1].path, "u.md");
    assert_eq!(errors[1].line.number, 2);
}

#[test]
fn defaults_are_as_documented() {
    assert_eq!(default_code_comment_header(), "# ");
    assert_eq!(default_markdown_comment_begin(), "(((");
    assert_eq!(default_markdown_comment_end(), ")))");
    assert_eq!(default_similar_threshold().numer, 1);
    assert_eq!(default_similar_threshold().denom, 2);
    let c = Config::default();
    assert!(c.excludes.is_empty());
    assert!(!c.matcher.enable_code_comment_tweak);
    assert_eq!(c.matcher.code_comment_header, "# ");
    assert!(!c.matcher.keep_markdown_comment);
    assert_eq!(c.matcher.markdown_comment_begin, "(((");
    assert_eq!(c.matcher.markdown_comment_end, ")))");
    assert_eq!(c.matcher.similar_threshold.numer, 1);
    assert_eq!(c.matcher.similar_threshold.denom, 2);
    assert!(!c.linter.enable_emphasis_check);
    assert!(!c.linter.enable_half_paren_check);
    assert!(!c.linter.enable_full_paren_check);
    let m = ConfigMatcher::default();
    assert_eq!(m.code_comment_header, "# ");
    let l = ConfigLinter::default();
    assert!(!l.enable_emphasis_check && !l.enable_half_paren_check && !l.enable_full_paren_check);
}

#[test]
fn emphasis_is_judged_by_its_markers_and_neighbours() {
    let mismatch = |start, end| Some(Finding { kind: LintErrorKind::EmphasisMismatch, start, end });
    let unspaced =
        |start, end| Some(Finding { kind: LintErrorKind::EmphasisWithoutSpace, start, end });
    assert_eq!(find_emphasis(b"**a**", (0, 5)), None);
    assert_eq!(find_emphasis(b"*a*", (0, 3)), None);
    assert_eq!(find_emphasis(b"x **a** y", (2, 7)), None);
    assert_eq!(find_emphasis(b"x**a** y", (1, 6)), unspaced(1, 6));
    assert_eq!(find_emphasis(b"x **a**y", (2, 7)), unspaced(2, 7));
    assert_eq!(find_emphasis(b"**a*", (0, 4)), mismatch(0, 4));
    assert_eq!(find_emphasis(b"*a**", (0, 4)), mismatch(0, 4));
    assert_eq!(find_emphasis(b"x**a*", (1, 5)), mismatch(1, 5));
    // a place of one byte has neither marker twice
    assert_eq!(find_emphasis(b"a*b", (1, 2)), unspaced(1, 2));
    assert_eq!(find_emphasis(b"*", (0, 1)), None);
    assert_eq!(find_emphasis(b"", (0, 0)), None);
    // a place outside of the line is passed over
    assert_eq!(find_emphasis(b"**a**", (0, 6)), None);
    assert_eq!(find_emphasis(b"**a**", (3, 2)), None);
}

#[test]
fn parentheses_are_judged_by_what_they_hold() {
    let half = |start, end| Some(Finding { kind: LintErrorKind::HalfParenWithNonAscii, start, end });
    let full =
        |start, end| Some(Finding { kind: LintErrorKind::FullParenWithoutNonAscii, start, end });
    let line = "(a)(\u{3042})".as_bytes();
    assert_eq!(find_paren(line, &vec![Some((0, 3)), Some((1, 2))], true), None);
    assert_eq!(find_paren(line, &vec![Some((3, 8)), Some((4, 7))], true), half(3, 8));
    assert_eq!(find_paren(line, &vec![Some((0, 3)), Some((1, 2))], false), full(0, 3));
    assert_eq!(find_paren(line, &vec![Some((3, 8)), Some((4, 7))], false), None);
    // nothing between the parentheses is all ASCII
    assert_eq!(find_paren(line, &vec![Some((0, 2)), Some((1, 1))], true), None);
    assert_eq!(find_paren(line, &vec![Some((0, 2)), Some((1, 1))], false), full(0, 2));
    // a match without its group, or with a group outside of the line, is passed over
    assert_eq!(find_paren(line, &vec![Some((0, 3))], false), None);
    assert_eq!(find_paren(line, &vec![Some((0, 3)), None], false), None);
    assert_eq!(find_paren(line, &vec![None, Some((1, 2))], false), None);
    assert_eq!(find_paren(line, &vec![Some((0, 3)), Some((1, 9))], false), None);
    assert_eq!(find_paren(line, &vec![Some((0, 3)), Some((2, 1))], false), None);
    assert_eq!(find_paren(line, &Vec::new(), true), None);
    assert_eq!(find_paren(line, &vec![Some((3, 9)), Some((4, 7))], true), None);
    assert_eq!(find_paren(line, &vec![Some((2, 1)), Some((1, 2))], false), None);
}

#[test]
fn errors_lie_between_characters_of_their_lines() {
    let lines = ["これは**強調**です", "（abc）と(日本語)", "x**y* (é) （z）"];
    for e in all().check(file(&lines)) {
        let text = &e.line.content;
        assert!(e.start <= e.end && e.end <= text.len());
        assert!(text.is_char_boundary(e.start) && text.is_char_boundary(e.end));
    }
}
