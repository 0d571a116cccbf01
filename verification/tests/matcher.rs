use transcheck::check::FilePair;
use transcheck::similar::is_block_small;
use transcheck::matcher::{
    Line, MatchError, Matcher, Mismatch, MismatchLine, Threshold,
};

fn matcher(keep: bool) -> Matcher {
    Matcher {
        enable_code_comment_tweak: true,
        code_comment_header: String::from("# "),
        keep_markdown_comment: keep,
        markdown_comment_begin: String::from("((("),
        markdown_comment_end: String::from(")))"),
        similar_threshold: Threshold { numer: 1, denom: 2 },
    }
}

fn line(number: usize, content: &str, last_both: usize, html: bool, code: bool) -> Line {
    Line {
        number,
        content: String::from(content),
        last_both,
        html_comment: html,
        code_not_comment: code,
    }
}

fn show(lines: &[MismatchLine]) -> Vec<String> {
    lines
        .iter()
        .map(|l| match l {
            MismatchLine::Modified(m) => format!(
                "modified {}:{} -> {}:{}",
                m.source.number, m.source.content, m.target.number, m.target.content
            ),
            MismatchLine::Missing(m) => format!(
                "missing {}:{} after {}",
                m.source.number, m.source.content, m.source.last_both
            ),
            MismatchLine::Garbage(g) => format!("garbage {}:{}", g.target.number, g.target.content),
        })
        .collect()
}

#[test]
fn test_get_mismatch_lines_match() {
    let source = r##"
        aaa
        bbb
        ccc
            "##;
    let target = r##"
        aaa
        ddd
        bbb
        eee
        ccc
            "##;

    let (ret, _) = Matcher::get_mismatch_lines(source, target);
    assert_eq!(ret.len(), 0);
}

#[test]
fn test_get_mismatch_lines_diff() {
    let source = r##"
        aaa
        bbb
        ccc
            "##;
    let target = r##"
        aaa
        ddd
        bbc
        eee
        ccc
            "##;

    let (ret, _) = Matcher::get_mismatch_lines(source, target);
    assert_eq!(ret.len(), 1);
    assert_eq!(ret[0].0.len(), 1);
    assert_eq!(ret[0].0[0].number, 3);
    assert_eq!(ret[0].0[0].content, "        bbb");
    assert_eq!(ret[0].1.len(), 3);
    assert_eq!(ret[0].1[0].number, 3);
    assert_eq!(ret[0].1[0].content, "        ddd");
    assert_eq!(ret[0].1[1].number, 4);
    assert_eq!(ret[0].1[1].content, "        bbc");
    assert_eq!(ret[0].1[2].number, 5);
    assert_eq!(ret[0].1[2].content, "        eee");
}

#[test]
fn identical_texts_have_no_blocks() {
    for text in ["", "a", "a\n", "a\nb\n\nc", "<!--\nx\n-->\n", "```rust\nlet x;\n```\n"] {
        let (blocks, target_only) = Matcher::get_mismatch_lines(text, text);
        assert_eq!(blocks.len(), 0, "{:?}", text);
        assert_eq!(target_only.len(), 0, "{:?}", text);
    }
}

#[test]
fn lines_carry_numbers_and_anchors() {
    let (blocks, target_only) = Matcher::get_mismatch_lines("a\nx\ny\nb\nz", "a\nb\nq\nr");
    assert_eq!(blocks.len(), 2);
    assert_eq!(blocks[0].0.len(), 2);
    assert_eq!(blocks[0].0[0].number, 2);
    assert_eq!(blocks[0].0[0].last_both, 1);
    assert_eq!(blocks[0].0[1].number, 3);
    assert_eq!(blocks[0].0[1].last_both, 1);
    assert_eq!(blocks[0].1.len(), 0);
    assert_eq!(blocks[1].0.len(), 1);
    assert_eq!(blocks[1].0[0].number, 5);
    assert_eq!(blocks[1].0[0].content, "z");
    assert_eq!(blocks[1].0[0].last_both, 2);
    assert_eq!(blocks[1].1.len(), 2);
    assert_eq!(blocks[1].1[0].number, 3);
    assert_eq!(blocks[1].1[0].last_both, 4);
    assert_eq!(blocks[1].1[1].number, 4);
    assert_eq!(target_only.len(), 2);
    assert!(!blocks[1].1[0].html_comment);
    assert!(!blocks[1].1[0].code_not_comment);
}

#[test]
fn comment_body_is_marked_between_opener_and_closer() {
    let (blocks, target_only) = Matcher::get_mismatch_lines("a\nb\n", "a\n  <!--\none\ntwo\n  -->\nb\n");
    assert_eq!(target_only.len(), 4);
    let marks: Vec<bool> = target_only.iter().map(|l| l.html_comment).collect();
    assert_eq!(marks, vec![false, true, true, false]);
    assert_eq!(blocks.len(), 1);
    assert_eq!(blocks[0].0.len(), 0);
    assert_eq!(blocks[0].1.len(), 2);
    assert_eq!(blocks[0].1[0].number, 3);
    assert_eq!(blocks[0].1[0].content, "one");
    assert_eq!(blocks[0].1[1].number, 4);
}

#[test]
fn code_lines_are_marked_unless_they_hold_a_comment() {
    let target = "a\n```rust\nlet x = 1;\nlet y = 2; // two\n```\nafter\nb\n";
    let (blocks, target_only) = Matcher::get_mismatch_lines("a\nb\n", target);
    let marks: Vec<bool> = target_only.iter().map(|l| l.code_not_comment).collect();
    assert_eq!(marks, vec![false, true, false, false, false]);
    assert_eq!(blocks.len(), 1);
    assert_eq!(blocks[0].1.len(), 1);
    assert_eq!(blocks[0].1[0].content, "let x = 1;");
    assert_eq!(blocks[0].1[0].number, 3);
}

#[test]
fn a_common_line_closes_a_code_block() {
    let source = "a\n```\nb\n";
    let target = "a\n```rust\nlet x;\n```\nlet y;\nb\n";
    let (_, target_only) = Matcher::get_mismatch_lines(source, target);
    let seen: Vec<(&str, bool)> =
        target_only.iter().map(|l| (l.content.as_str(), l.code_not_comment)).collect();
    assert_eq!(seen, vec![("```rust", false), ("let x;", true), ("let y;", false)]);
}

#[test]
fn unmarked_extra_lines_are_no_findings() {
    let (found, target_only) =
        matcher(false).check_file("s", "t", "aaa\nbbb\nccc\n", "aaa\nddd\nbbb\neee\nccc\n").unwrap();
    assert_eq!(found.lines.len(), 0);
    assert_eq!(target_only.len(), 2);
    assert_eq!(target_only[0].content, "ddd");
    assert_eq!(target_only[0].number, 2);
    assert_eq!(target_only[1].content, "eee");
    assert_eq!(target_only[1].number, 4);
}

#[test]
fn a_final_line_feed_counts_as_an_empty_line() {
    let (blocks, target_only) = Matcher::get_mismatch_lines("a\nb", "a\nb\n");
    assert_eq!(blocks.len(), 0);
    assert_eq!(target_only.len(), 1);
    assert_eq!(target_only[0].number, 3);
    assert_eq!(target_only[0].content, "");
    assert_eq!(target_only[0].last_both, 2);
    let (blocks, target_only) = Matcher::get_mismatch_lines("a\nb\n", "a\nb");
    assert_eq!(blocks.len(), 1);
    assert_eq!(blocks[0].0.len(), 1);
    assert_eq!(blocks[0].0[0].number, 3);
    assert_eq!(blocks[0].0[0].content, "");
    assert_eq!(target_only.len(), 0);
}

#[test]
fn check_file_pairs_an_edited_line() {
    let (found, target_only) = matcher(false)
        .check_file("a.md", "b.md", "aaa\nbbb\nccc\n", "aaa\nddd\nbbc\neee\nccc\n")
        .unwrap();
    assert_eq!(found.source_path, "a.md");
    assert_eq!(found.target_path, "b.md");
    assert_eq!(found.lines.len(), 1);
    match &found.lines[0] {
        MismatchLine::Modified(m) => {
            assert_eq!(m.source.number, 2);
            assert_eq!(m.source.content, "bbb");
            assert_eq!(m.source.last_both, 1);
            assert_eq!(m.target.number, 3);
            assert_eq!(m.target.content, "bbc");
            assert_eq!(m.target.last_both, 1);
        }
        other => panic!("unexpected finding {:?}", other),
    }
    assert_eq!(target_only.len(), 3);
    assert_eq!(target_only[0].content, "ddd");
    assert_eq!(target_only[2].number, 4);
}

#[test]
fn comment_line_without_source_change_is_garbage() {
    let (found, _) = matcher(false)
        .check_file("s", "t", "aaa\nbbb\n", "aaa\n<!--\nxxx\n-->\nbbb\n")
        .unwrap();
    assert_eq!(show(&found.lines), vec!["garbage 3:xxx"]);
}

#[test]
fn source_comments_are_left_out_of_the_comparison() {
    let source = "aaa\n<!-- note -->bbb\nccc\n";
    let (found, _) = matcher(false).check_file("s", "t", source, "aaa\nbbb\nccc\n").unwrap();
    assert_eq!(found.lines.len(), 0);
    let (found, _) =
        matcher(true).check_file("s", "t", source, "aaa\n((( note )))bbb\nccc\n").unwrap();
    assert_eq!(found.lines.len(), 0);
}

#[test]
fn headers_on_code_lines_are_undone_before_comparing() {
    let source = "```rust\nfn main() {}\n```\n";
    let target = "```rust\n# fn main() {}\n```\n";
    let (found, _) = matcher(false).check_file("s", "t", source, target).unwrap();
    assert_eq!(found.lines.len(), 0);
    let mut plain = matcher(false);
    plain.enable_code_comment_tweak = false;
    let (found, _) = plain.check_file("s", "t", source, target).unwrap();
    assert_eq!(show(&found.lines), vec!["modified 2:fn main() {} -> 2:# fn main() {}"]);
}

#[test]
fn unterminated_comment_is_malformed_input() {
    let r = matcher(false).check_file("s", "t", "aaa\n<!-- bbb\n", "aaa\n");
    assert_eq!(r.err(), Some(MatchError::MalformedInput));
    assert_eq!(MatchError::MalformedInput.message(), "Failed to parse markdown comment");
    assert_eq!(MatchError::TooLarge.message(), "Files are too large to compare");
}

#[test]
fn remove_markdown_comment_takes_spans_out() {
    let m = matcher(false);
    assert_eq!(m.remove_markdown_comment("abc").unwrap(), "abc");
    assert_eq!(m.remove_markdown_comment("").unwrap(), "");
    assert_eq!(m.remove_markdown_comment("a<!-- x -->b").unwrap(), "ab");
    assert_eq!(m.remove_markdown_comment("a<!--1-->b<!--2-->c").unwrap(), "abc");
    assert_eq!(m.remove_markdown_comment("a\n<!--\nx\n-->\nb").unwrap(), "a\n\n\n\nb");
    assert_eq!(m.remove_markdown_comment("<!--\n\n-->").unwrap(), "\n\n");
    assert_eq!(m.remove_markdown_comment("a<!--x\r\ny-->b").unwrap(), "a\nb");
    assert_eq!(m.remove_markdown_comment("a-->b<!--c-->d").unwrap(), "a-->bd");
    assert_eq!(m.remove_markdown_comment("<!---->").unwrap(), "");
    assert_eq!(m.remove_markdown_comment("日本<!--語-->語").unwrap(), "日本語");
}

#[test]
fn remove_markdown_comment_keeps_bodies_between_markers() {
    let m = matcher(true);
    assert_eq!(m.remove_markdown_comment("a<!-- x -->b").unwrap(), "a((( x )))b");
    assert_eq!(m.remove_markdown_comment("a<!--1-->b<!--2-->c").unwrap(), "a(((1)))b(((2)))c");
    assert_eq!(m.remove_markdown_comment("<!---->").unwrap(), "((()))");
    assert_eq!(m.remove_markdown_comment("no comment").unwrap(), "no comment");
}

#[test]
fn remove_markdown_comment_rejects_a_span_without_end() {
    let m = matcher(false);
    assert_eq!(m.remove_markdown_comment("a<!-- x").err(), Some(MatchError::MalformedInput));
    assert_eq!(m.remove_markdown_comment("<!-->").err(), Some(MatchError::MalformedInput));
    assert_eq!(
        m.remove_markdown_comment("a<!--1-->b<!--2").err(),
        Some(MatchError::MalformedInput)
    );
    assert_eq!(matcher(true).remove_markdown_comment("<!--").err(), Some(MatchError::MalformedInput));
}

#[test]
fn revert_code_comment_strips_headers_in_code_blocks() {
    let m = matcher(false);
    let target = "text\n```rust\n# let x = 1;\nlet y;\n```\n# not code\n";
    assert_eq!(
        m.revert_code_comment(target),
        "text\n```rust\nlet x = 1;\nlet y;\n```\n# not code\n"
    );
    assert_eq!(m.revert_code_comment("a"), "a\n");
    assert_eq!(m.revert_code_comment(""), "");
    assert_eq!(m.revert_code_comment("a\r\nb"), "a\nb\n");
    assert_eq!(m.revert_code_comment("  ```\n# a\n  ```  \n# b"), "  ```\na\n  ```  \n# b\n");
}

#[test]
fn revert_code_comment_strips_the_whole_header() {
    let mut m = matcher(false);
    m.code_comment_header = String::from("//! ");
    assert_eq!(m.revert_code_comment("```\n//! a\n//!b\n```"), "```\na\n//!b\n```\n");
    m.code_comment_header = String::from("＃");
    assert_eq!(m.revert_code_comment("```\n＃a\n```"), "```\na\n```\n");
}

#[test]
fn revert_code_comment_is_off_by_default() {
    let mut m = matcher(false);
    m.enable_code_comment_tweak = false;
    let target = "```rust\n# let x = 1;\n```";
    assert_eq!(m.revert_code_comment(target), target);
}

#[test]
fn get_similar_line_takes_the_highest_score_and_the_first_of_equals() {
    let m = matcher(false);
    let source = line(1, "abcd", 0, false, false);
    let targets = vec![
        line(1, "abcx", 0, false, false),
        line(2, "abcd", 0, false, false),
        line(3, "abcd", 0, false, false),
    ];
    let (similar, rest, before) = m.get_similar_line(&source, &targets);
    assert_eq!(similar.unwrap().number, 2);
    assert_eq!(rest.len(), 1);
    assert_eq!(rest[0].number, 3);
    assert_eq!(before.len(), 1);
    assert_eq!(before[0].number, 1);
}

#[test]
fn get_similar_line_needs_more_than_the_threshold_on_both_sides() {
    let m = matcher(false);
    // two of four characters are shared: exactly one half is not enough
    let source = line(1, "abxy", 0, false, false);
    let targets = vec![line(1, "abcd", 0, false, false)];
    let (similar, rest, before) = m.get_similar_line(&source, &targets);
    assert!(similar.is_none());
    assert_eq!(rest.len(), 1);
    assert_eq!(before.len(), 0);
    // all of the source is in the candidate, but it is a small part of it
    let source = line(1, "abc", 0, false, false);
    let targets = vec![line(1, "abcdefgh", 0, false, false)];
    assert!(m.get_similar_line(&source, &targets).0.is_none());
    let targets = vec![line(1, "abcde", 0, false, false)];
    assert!(m.get_similar_line(&source, &targets).0.is_some());
    // an empty line is similar to nothing
    let source = line(1, "", 0, false, false);
    let targets = vec![line(1, "", 0, false, false)];
    assert!(m.get_similar_line(&source, &targets).0.is_none());
    assert!(m.get_similar_line(&source, &[]).0.is_none());
}

#[test]
fn get_similar_line_counts_the_length_in_bytes() {
    let m = matcher(false);
    // three shared characters of nine bytes on either side
    let source = line(1, "日本語", 0, false, false);
    let targets = vec![line(1, "日本語", 0, false, false)];
    assert!(m.get_similar_line(&source, &targets).0.is_none());
    let mut low = matcher(false);
    low.similar_threshold = Threshold { numer: 1, denom: 4 };
    assert!(low.get_similar_line(&source, &targets).0.is_some());
}

#[test]
fn threshold_with_zero_denominator_admits_nothing() {
    let mut m = matcher(false);
    m.similar_threshold = Threshold { numer: 0, denom: 0 };
    let source = line(1, "abc", 0, false, false);
    let targets = vec![line(1, "abc", 0, false, false)];
    assert!(m.get_similar_line(&source, &targets).0.is_none());
    m.similar_threshold = Threshold { numer: 0, denom: 1 };
    assert!(m.get_similar_line(&source, &targets).0.is_some());
}

#[test]
fn resolve_classifies_a_block() {
    let m = matcher(false);
    let lefts = vec![line(4, "hello world", 3, false, false)];
    let rights = vec![
        line(5, "zzz", 3, true, false),
        line(6, "qqq", 3, false, false),
        line(7, "hello wurld", 3, false, false),
        line(8, "rrr", 3, false, true),
        line(9, "sss", 3, false, false),
    ];
    let out = m.resolve(&lefts, &rights);
    assert_eq!(
        show(&out),
        vec!["garbage 5:zzz", "modified 4:hello world -> 7:hello wurld", "garbage 8:rrr"]
    );
}

#[test]
fn resolve_raises_the_anchor_of_a_missing_line() {
    let m = matcher(false);
    let lefts = vec![
        line(2, "nothing like it", 1, false, false),
        line(3, "bbb", 1, false, false),
        line(4, "xyz", 1, false, false),
        line(5, "uvw", 1, false, false),
    ];
    let rights = vec![line(6, "ddd", 1, false, false), line(7, "bbc", 1, false, false)];
    let out = m.resolve(&lefts, &rights);
    assert_eq!(
        show(&out),
        vec![
            "missing 2:nothing like it after 1",
            "modified 3:bbb -> 7:bbc",
            "missing 4:xyz after 7",
            "missing 5:uvw after 7",
        ]
    );
}

#[test]
fn resolve_keeps_a_higher_anchor() {
    let m = matcher(false);
    let lefts = vec![line(3, "bbb", 1, false, false), line(4, "xyz", 9, false, false)];
    let rights = vec![line(7, "bbc", 1, false, false)];
    let out = m.resolve(&lefts, &rights);
    assert_eq!(show(&out), vec!["modified 3:bbb -> 7:bbc", "missing 4:xyz after 9"]);
}

#[test]
fn resolve_without_source_lines_yields_the_marked_lines() {
    let m = matcher(false);
    let rights = vec![
        line(5, "a", 3, true, false),
        line(6, "b", 3, false, false),
        line(7, "c", 3, false, true),
        line(8, "d", 3, true, true),
    ];
    assert_eq!(show(&m.resolve(&[], &rights)), vec!["garbage 5:a", "garbage 7:c", "garbage 8:d"]);
    assert_eq!(m.resolve(&[], &[]).len(), 0);
}

#[test]
fn resolve_gives_the_same_findings_each_time() {
    let m = matcher(false);
    let lefts = vec![line(3, "abcd", 1, false, false), line(4, "wxyz", 1, false, false)];
    let rights = vec![
        line(7, "abcx", 1, true, false),
        line(8, "abxd", 1, false, false),
        line(9, "wxy", 1, false, true),
    ];
    let first = show(&m.resolve(&lefts, &rights));
    let second = show(&m.resolve(&lefts, &rights));
    assert_eq!(first, second);
    assert_eq!(first, vec!["modified 3:abcd -> 7:abcx", "modified 4:wxyz -> 9:wxy"]);
}

#[test]
fn missing_anchors_do_not_go_down_within_a_block() {
    let m = matcher(false);
    let (blocks, _) = Matcher::get_mismatch_lines(
        "a\none\nbbb\ntwo\nthree\nb\n",
        "a\nddd\nbbc\neee\nb\n",
    );
    assert_eq!(blocks.len(), 1);
    let out = m.resolve(&blocks[0].0, &blocks[0].1);
    let anchors: Vec<usize> = out
        .iter()
        .filter_map(|l| match l {
            MismatchLine::Missing(x) => Some(x.source.last_both),
            _ => None,
        })
        .collect();
    assert_eq!(anchors, vec![1, 3, 3]);
}

#[test]
fn check_dir_reports_each_pair() {
    let pairs = vec![
        FilePair {
            source_path: String::from("o/comment.md"),
            target_path: String::from("t/comment.md"),
            source: String::from("# title\n<!-- hidden -->text\n"),
            target: Some(String::from("# title\ntext\n")),
        },
        FilePair {
            source_path: String::from("o/broken.md"),
            target_path: String::from("t/broken.md"),
            source: String::from("<!-- never closed\n"),
            target: Some(String::from("text\n")),
        },
        FilePair {
            source_path: String::from("o/mismatch_lines.md"),
            target_path: String::from("t/mismatch_lines.md"),
            source: String::from("aaa\nbbb\nccc\n"),
            target: Some(String::from("aaa\nccc\n")),
        },
        FilePair {
            source_path: String::from("o/missing_file.md"),
            target_path: String::from("t/missing_file.md"),
            source: String::from("aaa\n"),
            target: None,
        },
    ];
    let report = matcher(false).check_dir(&pairs);
    assert_eq!(report.mismatches.len(), 3);
    assert!(
        matches!(&report.mismatches[0], Mismatch::MismatchLines(x) if x.source_path == "o/comment.md" && x.lines.is_empty())
    );
    assert!(
        matches!(&report.mismatches[1], Mismatch::MismatchLines(x) if x.target_path == "t/mismatch_lines.md" && !x.lines.is_empty())
    );
    assert!(
        matches!(&report.mismatches[2], Mismatch::MissingFile(x) if x.source_path == "o/missing_file.md" && x.target_path == "t/missing_file.md")
    );
    assert_eq!(report.target_onlys.len(), 2);
    assert_eq!(report.target_onlys[0].target_path, "t/comment.md");
    assert_eq!(report.target_onlys[1].target_path, "t/mismatch_lines.md");
    assert_eq!(report.skipped, vec![(1, MatchError::MalformedInput)]);
    assert_eq!(matcher(false).check_dir(&Vec::new()).mismatches.len(), 0);
}

#[test]
fn undoing_headers_keeps_the_number_of_lines() {
    let m = matcher(false);
    for text in ["", "a", "a\n", "```\n# a\n```", "x\r\n```rust\r\n# y\r\n", "# a\n\n\n```\n# \n"] {
        let reverted = m.revert_code_comment(text);
        assert_eq!(reverted.lines().count(), text.lines().count(), "{:?}", text);
    }
}

#[test]
fn lines_come_in_the_order_of_their_files() {
    let source = "a\nb\nc\nd\ne\nf\ng\nh\n";
    let target = "a\nx\nc\n<!--\ny\n-->\ne\nz\nw\nh\nv\n";
    let (blocks, target_only) = Matcher::get_mismatch_lines(source, target);
    let numbers: Vec<usize> = target_only.iter().map(|l| l.number).collect();
    assert_eq!(numbers, vec![2, 4, 5, 6, 8, 9, 11]);
    let anchors: Vec<usize> = target_only.iter().map(|l| l.last_both).collect();
    assert_eq!(anchors, vec![1, 3, 3, 3, 5, 5, 8]);
    let lefts: Vec<Vec<(usize, usize)>> =
        blocks.iter().map(|b| b.0.iter().map(|l| (l.number, l.last_both)).collect()).collect();
    assert_eq!(lefts, vec![vec![(2, 1)], vec![(4, 3)], vec![(6, 7), (7, 7)]]);
}

fn tree(comment_source: &str, comment_target: &str) -> Vec<FilePair> {
    let pair = |name: &str, source: &str, target: Option<&str>| FilePair {
        source_path: format!("testcase/original/{}", name),
        target_path: format!("testcase/translated/{}", name),
        source: String::from(source),
        target: target.map(String::from),
    };
    vec![
        pair("missing_file.md", "# Missing\n", None),
        pair("hello.md", "# Hello\n\nHello world.\n", Some("# Hello\n\nHello world.\n")),
        pair(
            "mismatch_lines.md",
            "# Title\n\nfirst line\nsecond line\n",
            Some("# Title\n\nfirst lime\n"),
        ),
        pair("comment.md", comment_source, Some(comment_target)),
    ]
}

fn sorted(matcher: &Matcher, pairs: &Vec<FilePair>) -> Vec<Mismatch> {
    let mut ret = matcher.check_dir(pairs).mismatches;
    ret.sort_by_key(|x| match x {
        Mismatch::MismatchLines(x) => x.source_path.clone(),
        Mismatch::MissingFile(x) => x.source_path.clone(),
    });
    ret
}

#[test]
fn matcher_test_check_dir() {
    let matcher = Matcher {
        enable_code_comment_tweak: true,
        code_comment_header: String::from("# "),
        keep_markdown_comment: false,
        markdown_comment_begin: String::from("((("),
        markdown_comment_end: String::from(")))"),
        similar_threshold: Threshold { numer: 1, denom: 2 },
    };
    let pairs = tree("# Comment\n<!-- for the editors -->text\n", "# Comment\ntext\n");
    let ret = sorted(&matcher, &pairs);
    assert_eq!(ret.len(), 4);
    assert!(
        matches!(&ret[0], Mismatch::MismatchLines(x) if x.source_path.ends_with("comment.md") && x.lines.is_empty())
    );
    assert!(
        matches!(&ret[1], Mismatch::MismatchLines(x) if x.source_path.ends_with("hello.md") && x.lines.is_empty())
    );
    assert!(
        matches!(&ret[2], Mismatch::MismatchLines(x) if x.source_path.ends_with("mismatch_lines.md") && !x.lines.is_empty())
    );
    assert!(
        matches!(&ret[3], Mismatch::MissingFile(x) if x.source_path.ends_with("missing_file.md"))
    );
}

#[test]
fn test_check_dir_keep_comment() {
    let matcher = Matcher {
        enable_code_comment_tweak: true,
        code_comment_header: String::from("# "),
        keep_markdown_comment: true,
        markdown_comment_begin: String::from("((("),
        markdown_comment_end: String::from(")))"),
        similar_threshold: Threshold { numer: 1, denom: 2 },
    };
    let pairs = tree(
        "# Comment\n<!-- for the editors -->text\n",
        "# Comment\n((( for the editors )))text\n",
    );
    let ret = sorted(&matcher, &pairs);
    assert_eq!(ret.len(), 4);
    assert!(
        matches!(&ret[0], Mismatch::MismatchLines(x) if x.source_path.ends_with("comment.md") && x.lines.is_empty())
    );
    assert!(
        matches!(&ret[1], Mismatch::MismatchLines(x) if x.source_path.ends_with("hello.md") && x.lines.is_empty())
    );
    assert!(
        matches!(&ret[2], Mismatch::MismatchLines(x) if x.source_path.ends_with("mismatch_lines.md") && !x.lines.is_empty())
    );
    assert!(
        matches!(&ret[3], Mismatch::MissingFile(x) if x.source_path.ends_with("missing_file.md"))
    );
}

#[test]
fn taking_out_a_comment_keeps_the_number_of_lines() {
    let m = matcher(false);
    let source = "a\n<!--\nb\n-->\nc";
    let r = m.remove_markdown_comment(source).unwrap();
    assert_eq!(r, "a\n\n\n\nc");
    assert_eq!(r.lines().count(), 5);
    assert_eq!(r.lines().count(), source.lines().count());
    assert_eq!(r.lines().nth(4), Some("c"));
    for text in ["", "x", "<!--a-->x", "x\n<!--\n-->\n", "<!--\n-->x<!--\n\n-->y\n", "a\n<!--x-->b"] {
        let r = m.remove_markdown_comment(text).unwrap();
        assert_eq!(r.lines().count(), text.lines().count(), "{:?}", text);
        assert_eq!(r.matches('\n').count(), text.matches('\n').count(), "{:?}", text);
    }
    let kept = matcher(true).remove_markdown_comment(source).unwrap();
    assert_eq!(kept, "a\n(((\nb\n)))\nc");
    assert_eq!(kept.lines().count(), 5);
}

#[test]
fn a_last_line_that_is_all_comment_leaves_no_line() {
    let m = matcher(false);
    assert_eq!(m.remove_markdown_comment("a\n<!--x-->").unwrap(), "a\n");
    assert_eq!(m.remove_markdown_comment("a\n<!--x-->").unwrap().lines().count(), 1);
    assert_eq!(m.remove_markdown_comment("<!--x-->").unwrap(), "");
}

#[test]
fn lines_after_a_comment_keep_their_numbers() {
    let source = "a\n<!--\nfor the editors\n-->\nb\nc\n";
    let (found, _) = matcher(false).check_file("s", "t", source, "a\n\n\n\nb\n").unwrap();
    assert_eq!(show(&found.lines), vec!["missing 6:c after 5"]);
}

#[test]
fn equal_texts_have_no_line_of_the_translation_alone() {
    for text in ["a\nb\n", "x", "\n\n", "<!--\nx\n-->\n```rust\ny\n```"] {
        let (blocks, target_only) = Matcher::get_mismatch_lines(text, text);
        assert!(blocks.is_empty() && target_only.is_empty(), "{:?}", text);
    }
}

#[test]
fn blocks_of_ordinary_lines_are_small_enough() {
    let lefts = vec![line(1, "a", 0, false, false), line(2, &"b".repeat(5000), 0, false, false)];
    let rights = vec![line(1, &"c".repeat(9000), 0, false, false)];
    assert!(is_block_small(&lefts, &rights));
    assert!(is_block_small(&lefts, &[]));
    assert!(is_block_small(&[], &rights));
    let (blocks, _) = Matcher::get_mismatch_lines("a\nb\nc\n", "a\nx\nc\n");
    assert!(Matcher::all_blocks_fit(&blocks));
    assert!(Matcher::all_blocks_fit(&Vec::new()));
}

#[test]
fn long_texts_in_few_lines_are_compared() {
    let body = "word ".repeat(40_000);
    let source = format!("{}\nsame\n", body);
    let target = format!("{}\nsame\n", body);
    let (found, target_only) = matcher(false).check_file("s", "t", &source, &target).unwrap();
    assert!(found.lines.is_empty());
    assert!(target_only.is_empty());
}

#[test]
fn missing_lines_belong_ever_further_down_the_file() {
    let source = "a\none\nbbb\ntwo\nb\nthree\nccc\nfour\nc\nfive\n";
    let target = "a\nddd\nbbc\nb\nccd\nc\n";
    let (found, _) = matcher(false).check_file("s", "t", source, target).unwrap();
    assert_eq!(
        show(&found.lines),
        vec![
            "missing 2:one after 1",
            "modified 3:bbb -> 3:bbc",
            "missing 4:two after 3",
            "missing 6:three after 4",
            "modified 7:ccc -> 5:ccd",
            "missing 8:four after 5",
            "missing 10:five after 6",
        ]
    );
    let mut last_anchor = 0;
    let mut last_edit = 0;
    for l in &found.lines {
        match l {
            MismatchLine::Missing(m) => {
                assert!(m.source.last_both >= last_anchor && m.source.last_both >= last_edit);
                last_anchor = m.source.last_both;
            }
            MismatchLine::Modified(m) => last_edit = m.target.number,
            MismatchLine::Garbage(_) => {}
        }
    }
}

#[test]
fn texts_are_lined_up_where_their_lines_can_be_counted() {
    let (blocks, target_only) = Matcher::try_get_mismatch_lines("a\nb\n", "a\nx\nb\n").unwrap();
    assert_eq!(blocks.len(), 0);
    assert_eq!(target_only.len(), 1);
    assert_eq!(target_only[0].number, 2);
    for text in ["", "a", "a\nb\n\n", "<!--\n-->"] {
        let (blocks, target_only) = Matcher::try_get_mismatch_lines(text, text).unwrap();
        assert!(blocks.is_empty() && target_only.is_empty());
    }
}

#[test]
fn marked_lines_are_the_only_findings_where_nothing_is_missing() {
    let cases = [
        ("a\nb\nc\n", "a\n<!--\nold a\nold b\n-->\nb\nextra\nc\n"),
        ("a\nb\n", "<!--\nx\n-->\na\n```rust\nlet y = 1;\nlet z = 2; // two\n```\nb\n"),
        ("a\nb\n", "a\nb\n<!--\ntail\n"),
        ("a\nb", "a\nx\nb\n"),
        ("", "<!--\nonly\n-->\n"),
        ("a\na\nb\n", "a\nb\na\n<!--\nq\n-->\nb\n"),
    ];
    for (source, target) in cases {
        let (found, target_only) = matcher(false).check_file("s", "t", source, target).unwrap();
        let marked: Vec<String> = target_only
            .iter()
            .filter(|l| l.html_comment || l.code_not_comment)
            .map(|l| format!("garbage {}:{}", l.number, l.content))
            .collect();
        assert_eq!(show(&found.lines), marked, "{:?} {:?}", source, target);
    }
}

fn longest_common(a: &[&str], b: &[&str]) -> usize {
    let mut table = vec![vec![0usize; b.len() + 1]; a.len() + 1];
    for i in 0..a.len() {
        for j in 0..b.len() {
            table[i + 1][j + 1] = if a[i] == b[j] {
                table[i][j] + 1
            } else {
                table[i][j + 1].max(table[i + 1][j])
            };
        }
    }
    table[a.len()][b.len()]
}

#[test]
fn as_many_lines_are_paired_as_can_be() {
    let texts = [
        "",
        "a",
        "a\n",
        "x\n",
        "x\n\ny",
        "a\nb\nc\n",
        "c\nb\na\n",
        "a\n\nb\n\nc",
        "b\na\nb\na\nb\n",
        "a\nb\na\nb\na",
        "\n\n",
        "q\na\nb\nq\nc\n",
    ];
    for source in texts {
        for target in texts {
            let (blocks, target_only) = Matcher::get_mismatch_lines(source, target);
            let a: Vec<&str> = source.lines().collect();
            let b: Vec<&str> = target.lines().collect();
            let both_end = source.ends_with('\n') && target.ends_with('\n');
            let paired = longest_common(&a, &b) + if both_end { 1 } else { 0 };
            let source_lines = a.len() + if source.ends_with('\n') { 1 } else { 0 };
            let target_lines = b.len() + if target.ends_with('\n') { 1 } else { 0 };
            let lefts: usize = blocks.iter().map(|b| b.0.len()).sum();
            assert_eq!(source_lines - lefts, paired, "{:?} {:?}", source, target);
            assert_eq!(target_lines - target_only.len(), paired, "{:?} {:?}", source, target);
        }
    }
}
