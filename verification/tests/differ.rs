use transcheck::check::FilePair;
use transcheck::differ::{pick_closest, Differ, Line, Missing};
use transcheck::matcher::MatchError;

fn line(number: usize, content: &str) -> Line {
    Line { number, content: String::from(content) }
}

#[test]
fn test_get_missing_lines_match() {
    let source = r##"
        aaa
        bbb
        ccc
            "##;
    let target = r##"
        aaa
        ddd
        bbb
        eee
        ccc
            "##;

    let ret = Differ::get_missing_lines(source, target);
    assert_eq!(ret.len(), 0);
}

#[test]
fn test_get_missing_lines_diff() {
    let source = r##"
        aaa
        bbb
        ccc
            "##;
    let target = r##"
        aaa
        ddd
        bbc
        eee
        ccc
            "##;

    let ret = Differ::get_missing_lines(source, target);
    assert_eq!(ret.len(), 1);
    assert_eq!(ret[0].0.len(), 1);
    assert_eq!(ret[0].0[0].number, 3);
    assert_eq!(ret[0].0[0].content, "        bbb");
    assert_eq!(ret[0].1.len(), 3);
    assert_eq!(ret[0].1[0].number, 3);
    assert_eq!(ret[0].1[0].content, "        ddd");
    assert_eq!(ret[0].1[1].number, 4);
    assert_eq!(ret[0].1[1].content, "        bbc");
    assert_eq!(ret[0].1[2].number, 5);
    assert_eq!(ret[0].1[2].content, "        eee");
}

#[test]
fn plain_comparison_of_equal_texts_finds_nothing() {
    for text in ["", "a", "a\nb\n", "<!--\nx\n-->"] {
        assert_eq!(Differ::get_missing_lines(text, text).len(), 0);
    }
}

#[test]
fn the_closest_line_shares_the_most_characters() {
    let source = line(1, "abcd");
    let targets = vec![line(1, "xyz"), line(2, "ab"), line(3, "abc"), line(4, "bcd"), line(5, "q")];
    let (similar, rest) = Differ::get_similar_line(&source, &targets);
    assert_eq!(similar.unwrap().number, 3);
    assert_eq!(rest.len(), 2);
    assert_eq!(rest[0].number, 4);
    let (similar, rest) = Differ::get_similar_line(&source, &targets[..1]);
    assert!(similar.is_none());
    assert_eq!(rest.len(), 1);
    let (similar, rest) = Differ::get_similar_line(&source, &[]);
    assert!(similar.is_none());
    assert_eq!(rest.len(), 0);
}

#[test]
fn plain_comparison_pairs_each_missing_line() {
    let differ = Differ { code_comment: true };
    let found = differ
        .check_file("s.md", "t.md", "aaa\nbbb\nxyz\nccc\n", "aaa\nddd\nbbc\neee\nccc\n")
        .unwrap();
    assert_eq!(found.source_path, "s.md");
    assert_eq!(found.target_path, "t.md");
    assert_eq!(found.lines.len(), 2);
    assert_eq!(found.lines[0].source.number, 2);
    assert_eq!(found.lines[0].source.content, "bbb");
    assert_eq!(found.lines[0].target.as_ref().unwrap().number, 3);
    assert_eq!(found.lines[0].target.as_ref().unwrap().content, "bbc");
    assert_eq!(found.lines[1].source.content, "xyz");
    assert!(found.lines[1].target.is_none());
}

#[test]
fn plain_comparison_undoes_headers_in_code() {
    let differ = Differ { code_comment: true };
    assert_eq!(
        differ.revert_code_comment("a\n```rust\n# x\ny\n```\n# z\n```\n# w"),
        "a\n```rust\nx\ny\n```\n# z\n```\n# w\n"
    );
    assert_eq!(differ.revert_code_comment("```rust\n```rust\n# x"), "```rust\n```rust\nx\n");
    assert_eq!(Differ { code_comment: false }.revert_code_comment("```rust\n# x"), "```rust\n# x");
    let found =
        differ.check_file("s", "t", "```rust\nfn f() {}\n```\n", "```rust\n# fn f() {}\n```\n").unwrap();
    assert_eq!(found.lines.len(), 0);
}

#[test]
fn differ_test_check_dir() {
    let differ = Differ { code_comment: true };
    let pairs = vec![
        FilePair {
            source_path: String::from("o/hello.md"),
            target_path: String::from("t/hello.md"),
            source: String::from("hello\n"),
            target: Some(String::from("hello\n")),
        },
        FilePair {
            source_path: String::from("o/missing_file.md"),
            target_path: String::from("t/missing_file.md"),
            source: String::new(),
            target: None,
        },
        FilePair {
            source_path: String::from("o/missing_lines.md"),
            target_path: String::from("t/missing_lines.md"),
            source: String::from("aaa\nbbb\nccc\n"),
            target: Some(String::from("aaa\nccc\n")),
        },
    ];
    let ret: Result<Vec<Missing>, MatchError> = differ.check_dir(&pairs);
    let mut ret = ret.unwrap();
    ret.sort_by_key(|x| match x {
        Missing::Lines(x) => x.source_path.clone(),
        Missing::File(x) => x.source_path.clone(),
    });
    assert_eq!(ret.len(), 3);
    assert!(
        matches!(&ret[0], Missing::Lines(x) if x.source_path == "o/hello.md" && x.lines.is_empty())
    );
    assert!(matches!(&ret[1], Missing::File(x) if x.source_path == "o/missing_file.md"));
    assert!(
        matches!(&ret[2], Missing::Lines(x) if x.source_path == "o/missing_lines.md" && !x.lines.is_empty())
    );
}

#[test]
fn the_most_shared_characters_are_picked_and_the_first_of_equals() {
    assert_eq!(pick_closest(&vec![0, 2, 3, 3, 1]), Some(2));
    assert_eq!(pick_closest(&vec![3, 3]), Some(0));
    assert_eq!(pick_closest(&vec![1, 2, 3]), Some(2));
    assert_eq!(pick_closest(&vec![0, 0]), None);
    assert_eq!(pick_closest(&vec![usize::MAX, usize::MAX]), Some(0));
    assert_eq!(pick_closest(&Vec::new()), None);
}
