use transcheck::align::align;
use transcheck::diffs::DiffItem;
use transcheck::fixer::{anchor_of, sort_by_anchor, Edit, EditKind, FixStep, Fixer};
use transcheck::matcher::{
    GarbageLine, Line, Matcher, Mismatch, MismatchLine, MismatchLines, MissingFile, MissingLine,
    ModifiedLine, Threshold,
};
use transcheck::util::{combine_line, CombinedLine};

fn matcher() -> Matcher {
    Matcher {
        enable_code_comment_tweak: false,
        code_comment_header: String::from("# "),
        keep_markdown_comment: false,
        markdown_comment_begin: String::from("((("),
        markdown_comment_end: String::from(")))"),
        similar_threshold: Threshold { numer: 1, denom: 2 },
    }
}

fn line(number: usize, content: &str, last_both: usize) -> Line {
    Line {
        number,
        content: String::from(content),
        last_both,
        html_comment: false,
        code_not_comment: false,
    }
}

fn modified(source: Line, target: Line) -> MismatchLine {
    MismatchLine::Modified(ModifiedLine { source, target })
}

fn missing(source: Line) -> MismatchLine {
    MismatchLine::Missing(MissingLine { source })
}

fn garbage(target: Line) -> MismatchLine {
    MismatchLine::Garbage(GarbageLine { target })
}

fn findings(lines: Vec<MismatchLine>) -> MismatchLines {
    MismatchLines { source_path: String::from("s.md"), target_path: String::from("t.md"), lines }
}

fn shape(lines: &[CombinedLine]) -> Vec<String> {
    lines
        .iter()
        .map(|c| match c {
            CombinedLine::Modified((s, t)) => format!("modified {}->{}", s.number, t.number),
            CombinedLine::Missing(v) => {
                format!("missing {:?}", v.iter().map(|l| l.number).collect::<Vec<_>>())
            }
            CombinedLine::Garbage(v) => {
                format!("garbage {:?}", v.iter().map(|l| l.number).collect::<Vec<_>>())
            }
        })
        .collect()
}

fn fix(source: &str, target: &str) -> (String, Vec<Edit>) {
    let (found, _) = matcher().check_file("s.md", "t.md", source, target).unwrap();
    Fixer { dry_run: false }.fix_lines(&found, target)
}

fn recheck(source: &str, target: &str) -> usize {
    matcher().check_file("s.md", "t.md", source, target).unwrap().0.lines.len()
}

#[test]
fn combine_line_gathers_lines_that_follow_each_other() {
    let m = findings(vec![
        missing(line(2, "a", 1)),
        missing(line(3, "b", 1)),
        modified(line(4, "c", 1), line(2, "C", 3)),
        missing(line(4, "d", 1)),
        garbage(line(7, "x", 1)),
        missing(line(6, "e", 5)),
        garbage(line(8, "y", 1)),
        garbage(line(10, "z", 1)),
    ]);
    let combined = combine_line(&m);
    assert_eq!(
        shape(&combined),
        vec![
            "modified 4->2",
            "missing [2, 3, 4]",
            "garbage [7, 8]",
            "missing [6]",
            "garbage [10]",
        ]
    );
    assert_eq!(combine_line(&findings(Vec::new())).len(), 0);
}

#[test]
fn combine_line_does_not_join_across_the_largest_number() {
    let m = findings(vec![missing(line(usize::MAX, "a", 1)), missing(line(0, "b", 1))]);
    assert_eq!(
        shape(&combine_line(&m)),
        vec![format!("missing [{}]", usize::MAX), String::from("missing [0]")]
    );
}

#[test]
fn findings_are_ordered_by_the_line_they_attach_to() {
    let m = findings(vec![
        modified(line(9, "c", 1), line(7, "C", 3)),
        missing(line(2, "a", 7)),
        garbage(line(3, "x", 1)),
        modified(line(1, "d", 1), line(3, "D", 3)),
        missing(line(5, "b", 0)),
    ]);
    let combined = combine_line(&m);
    let anchors: Vec<usize> = combined.iter().map(anchor_of).collect();
    assert_eq!(anchors, vec![7, 3, 7, 0, 3]);
    let sorted = sort_by_anchor(&combined);
    let order: Vec<String> =
        shape(&sorted.iter().map(|c| match c {
            CombinedLine::Modified((s, t)) => CombinedLine::Modified((*s, *t)),
            CombinedLine::Missing(v) => CombinedLine::Missing(v.clone()),
            CombinedLine::Garbage(v) => CombinedLine::Garbage(v.clone()),
        }).collect::<Vec<_>>());
    assert_eq!(
        order,
        vec!["missing [5]", "modified 1->3", "garbage [3]", "modified 9->7", "missing [2]"]
    );
    let mut empty = Vec::new();
    empty.push(CombinedLine::Missing(Vec::new()));
    empty.push(CombinedLine::Garbage(Vec::new()));
    assert_eq!(empty.iter().map(anchor_of).collect::<Vec<_>>(), vec![0, 0]);
}

#[test]
fn fix_lines_replaces_an_edited_line() {
    let (text, edits) = fix("aaa\nbbb\nccc\n", "aaa\nddd\nbbc\neee\nccc\n");
    assert_eq!(text, "aaa\nddd\nbbb\neee\nccc\n");
    assert_eq!(edits, vec![Edit { kind: EditKind::Modify, number: 3 }]);
}

#[test]
fn fix_lines_puts_missing_lines_after_their_anchor() {
    let (text, edits) = fix("aaa\nbbb\nxyz\nccc\nend\n", "aaa\nccc\n");
    assert_eq!(text, "aaa\nbbb\nxyz\nccc\nend\n");
    assert_eq!(
        edits,
        vec![Edit { kind: EditKind::Insert, number: 1 }, Edit { kind: EditKind::Insert, number: 2 }]
    );
}

#[test]
fn fix_lines_removes_a_run_of_garbage() {
    let source = "aaa\nbbb\n";
    let target = "aaa\n<!--\nxxx\nyyy\n-->\nbbb\n";
    let (text, edits) = fix(source, target);
    assert_eq!(text, "aaa\n<!--\n-->\nbbb\n");
    assert_eq!(edits, vec![Edit { kind: EditKind::Remove, number: 3 }]);
    assert_eq!(recheck(source, &text), 0);
}

#[test]
fn fix_lines_edits_before_it_inserts_at_the_same_line() {
    let source = "aaa\nbbb\nxyz\nccc\n";
    let target = "aaa\nbbc\nccc\n";
    let (found, _) = matcher().check_file("s.md", "t.md", source, target).unwrap();
    assert_eq!(found.lines.len(), 2);
    assert!(matches!(&found.lines[0], MismatchLine::Modified(m) if m.target.number == 2));
    assert!(matches!(&found.lines[1], MismatchLine::Missing(m) if m.source.last_both == 2));
    let (text, edits) = Fixer { dry_run: true }.fix_lines(&found, target);
    assert_eq!(text, "aaa\nbbb\nxyz\nccc\n");
    assert_eq!(
        edits,
        vec![Edit { kind: EditKind::Modify, number: 2 }, Edit { kind: EditKind::Insert, number: 2 }]
    );
}

#[test]
fn fix_lines_applies_findings_given_in_any_order() {
    let m = findings(vec![
        missing(line(9, "late", 4)),
        garbage(line(2, "junk", 1)),
        modified(line(1, "first", 0), line(1, "frist", 0)),
        garbage(line(3, "more junk", 1)),
        missing(line(10, "later", 4)),
    ]);
    let (text, edits) = Fixer { dry_run: false }.fix_lines(&m, "frist\njunk\nmore junk\nkeep\n");
    assert_eq!(text, "first\nkeep\nlate\nlater\n");
    assert_eq!(
        edits,
        vec![
            Edit { kind: EditKind::Modify, number: 1 },
            Edit { kind: EditKind::Remove, number: 2 },
            Edit { kind: EditKind::Insert, number: 4 },
        ]
    );
}

#[test]
fn fix_lines_waits_for_the_finding_at_the_head_of_its_queue() {
    // the first run of missing lines belongs before the first line and is
    // never reached, so the second one is not put in either
    let m = findings(vec![missing(line(1, "top", 0)), missing(line(5, "mid", 2))]);
    let (text, edits) = Fixer { dry_run: false }.fix_lines(&m, "a\nb\nc");
    assert_eq!(text, "a\nb\nc\n");
    assert_eq!(edits, Vec::new());
}

#[test]
fn fix_lines_without_findings_keeps_every_line() {
    let (text, edits) = Fixer { dry_run: false }.fix_lines(&findings(Vec::new()), "a\r\nb\n\nc");
    assert_eq!(text, "a\nb\n\nc\n");
    assert_eq!(edits, Vec::new());
    let (text, _) = Fixer { dry_run: false }.fix_lines(&findings(Vec::new()), "");
    assert_eq!(text, "");
}

#[test]
fn a_fixed_translation_has_no_findings() {
    let cases = [
        ("aaa\nbbb\nccc\n", "aaa\nddd\nbbc\neee\nccc\n"),
        ("aaa\nbbb\nxyz\nccc\n", "aaa\nbbc\nccc\n"),
        ("aaa\nbbb\n", "aaa\n<!--\nxxx\n-->\nbbb\n"),
        ("a\nb\nc\nd\ne\n", "a\nc\ne\n"),
        ("one\ntwo\n", "one\ntwo\n"),
    ];
    for (source, target) in cases {
        let (text, _) = fix(source, target);
        assert_eq!(recheck(source, &text), 0, "{:?} {:?}", source, target);
    }
}

#[test]
fn missing_lines_before_the_first_line_are_not_put_in() {
    let source = "x\na\n";
    let target = "a\n";
    let (found, _) = matcher().check_file("s.md", "t.md", source, target).unwrap();
    assert_eq!(found.lines.len(), 1);
    assert!(
        matches!(&found.lines[0], MismatchLine::Missing(m) if m.source.number == 1 && m.source.last_both == 0)
    );
    let (text, edits) = Fixer { dry_run: false }.fix_lines(&found, target);
    assert_eq!(text, "a\n");
    assert_eq!(edits, Vec::new());
    assert_eq!(recheck(source, &text), 1);
}

#[test]
fn fix_plans_one_step_for_each_outcome_with_work() {
    let outcomes = vec![
        Mismatch::MissingFile(MissingFile {
            source_path: String::from("o/a.md"),
            target_path: String::from("t/a.md"),
        }),
        Mismatch::MismatchLines(findings(Vec::new())),
        Mismatch::MismatchLines(findings(vec![missing(line(2, "a", 1))])),
    ];
    let plan = Fixer { dry_run: false }.fix(&outcomes);
    assert_eq!(plan.len(), 2);
    assert!(
        matches!(&plan[0], FixStep::Copy { source_path, target_path, write } if source_path == "o/a.md" && target_path == "t/a.md" && *write)
    );
    assert!(matches!(&plan[1], FixStep::Rewrite { index: 2, write: true }));
    let plan = Fixer { dry_run: true }.fix(&outcomes);
    assert_eq!(plan.len(), 2);
    assert!(matches!(&plan[0], FixStep::Copy { write: false, .. }));
    assert!(matches!(&plan[1], FixStep::Rewrite { index: 2, write: false }));
    assert_eq!(Fixer { dry_run: false }.fix(&[]).len(), 0);
}

#[test]
fn a_missing_translation_is_copied_not_rewritten() {
    let outcomes = vec![Mismatch::MissingFile(MissingFile {
        source_path: String::from("o/a.md"),
        target_path: String::from("t/a.md"),
    })];
    let plan = Fixer { dry_run: false }.fix(&outcomes);
    assert_eq!(plan.len(), 1);
    assert!(matches!(&plan[0], FixStep::Copy { .. }));
}

#[test]
fn align_cuts_a_script_given_by_hand() {
    let script = vec![
        DiffItem::Both(String::from("a"), String::from("a")),
        DiffItem::Right(String::from("<!--")),
        DiffItem::Right(String::from("note")),
        DiffItem::Left(String::from("b")),
        DiffItem::Right(String::from("-->")),
        DiffItem::Both(String::from("c"), String::from("c")),
        DiffItem::Right(String::from("tail")),
    ];
    let (blocks, target_only) = align(&script);
    assert_eq!(blocks.len(), 1);
    assert_eq!(blocks[0].0.len(), 1);
    assert_eq!(blocks[0].0[0].number, 2);
    assert_eq!(blocks[0].0[0].last_both, 1);
    assert_eq!(blocks[0].1.len(), 3);
    assert_eq!(blocks[0].1[1].content, "note");
    assert!(blocks[0].1[1].html_comment);
    assert!(!blocks[0].1[2].html_comment);
    assert_eq!(target_only.len(), 4);
    assert_eq!(target_only[3].number, 6);
    assert_eq!(target_only[3].last_both, 3);
}
