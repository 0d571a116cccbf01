use transcheck::diffs::fits;
use transcheck::similar::{count_common, is_higher_score, is_over_threshold, pick_most_similar};
use transcheck::diffs::DiffItem;
use transcheck::matcher::Threshold;
use transcheck::text::{
    count_lines, contains, copy_range, find_from, find_newline, from_chars, has_at, push_all, split_lines,
    to_chars, trim_bounds, trimmed_ends_with, trimmed_starts_with,
};

fn chars(s: &str) -> Vec<char> {
    s.chars().collect()
}

fn lines(s: &str) -> Vec<String> {
    split_lines(&chars(s)).iter().map(|l| l.iter().collect()).collect()
}

#[test]
fn chars_and_strings_convert_both_ways() {
    assert_eq!(to_chars("a日b"), vec!['a', '日', 'b']);
    assert_eq!(to_chars(""), Vec::<char>::new());
    assert_eq!(from_chars(&vec!['x', 'é', '\n']), "xé\n");
    assert_eq!(from_chars(&Vec::new()), "");
    assert_eq!(copy_range(&chars("abcdef"), 2, 4), chars("cd"));
    assert_eq!(copy_range(&chars("abcdef"), 3, 3), chars(""));
    let mut out = chars("ab");
    push_all(&mut out, &chars("cd"));
    assert_eq!(out, chars("abcd"));
}

#[test]
fn split_lines_follows_line_feeds() {
    assert_eq!(lines(""), Vec::<String>::new());
    assert_eq!(lines("a"), vec!["a"]);
    assert_eq!(lines("a\n"), vec!["a"]);
    assert_eq!(lines("\n"), vec![""]);
    assert_eq!(lines("a\n\nb"), vec!["a", "", "b"]);
    assert_eq!(lines("a\r\nb\n"), vec!["a", "b"]);
    assert_eq!(lines("a\r"), vec!["a\r"]);
    assert_eq!(lines("a\r\r\nb"), vec!["a\r", "b"]);
    assert_eq!(lines("\r\n"), vec![""]);
    assert_eq!(find_newline(&chars("ab\ncd\n"), 0), 2);
    assert_eq!(find_newline(&chars("ab\ncd\n"), 3), 5);
    assert_eq!(find_newline(&chars("ab"), 1), 2);
}

#[test]
fn split_lines_agrees_with_the_standard_library() {
    for text in ["", "a", "a\n", "\n\n", "a\r\nb", "a\rb\n", "x\r", "\r\n\r\n", "日本\n語\r\n", "a\n\r"] {
        let expected: Vec<String> = text.lines().map(String::from).collect();
        assert_eq!(lines(text), expected, "{:?}", text);
    }
}

#[test]
fn searching_finds_the_first_place() {
    let s = chars("ab<!--cd<!--");
    let pat = chars("<!--");
    assert_eq!(find_from(&s, 0, &pat), Some(2));
    assert_eq!(find_from(&s, 2, &pat), Some(2));
    assert_eq!(find_from(&s, 3, &pat), Some(8));
    assert_eq!(find_from(&s, 9, &pat), None);
    assert_eq!(find_from(&s, 100, &pat), None);
    assert_eq!(find_from(&s, 3, &chars("")), Some(3));
    assert_eq!(find_from(&s, 12, &chars("")), Some(12));
    assert_eq!(find_from(&s, 13, &chars("")), None);
    assert!(has_at(&s, 8, &pat));
    assert!(!has_at(&s, 9, &pat));
    assert!(!has_at(&s, usize::MAX, &pat));
    assert!(contains(&s, &chars("cd")));
    assert!(!contains(&s, &chars("dc")));
    assert!(has_at(&s, 0, &chars("ab")));
    assert!(has_at(&s, 12, &chars("")));
    assert!(!has_at(&s, 13, &chars("")));
}

#[test]
fn trimming_drops_white_space_at_both_ends() {
    assert_eq!(trim_bounds(&chars("  ab c \t")), (2, 6));
    assert_eq!(trim_bounds(&chars("   ")), (3, 3));
    assert_eq!(trim_bounds(&chars("")), (0, 0));
    assert_eq!(trim_bounds(&chars("\u{3000}x\u{a0}")), (1, 2));
    assert!(trimmed_starts_with(&chars("  ```rust"), &chars("```")));
    assert!(!trimmed_starts_with(&chars("  x```"), &chars("```")));
    assert!(trimmed_ends_with(&chars("x```  \r"), &chars("```")));
    assert!(!trimmed_ends_with(&chars("```x"), &chars("```")));
    assert!(!trimmed_starts_with(&chars("  `` "), &chars("```")));
    assert!(trimmed_ends_with(&chars(" "), &chars("")));
}

#[test]
fn threshold_is_a_strict_bound() {
    let half = Threshold { numer: 1, denom: 2 };
    assert!(!is_over_threshold(1, 2, half));
    assert!(is_over_threshold(2, 3, half));
    assert!(!is_over_threshold(0, 0, half));
    assert!(!is_over_threshold(5, 0, half));
    assert!(is_over_threshold(1, 1, half));
    assert!(!is_over_threshold(3, 10, Threshold { numer: 3, denom: 10 }));
    assert!(is_over_threshold(usize::MAX, usize::MAX, Threshold { numer: u64::MAX - 1, denom: u64::MAX }));
    assert!(!is_over_threshold(usize::MAX, usize::MAX, Threshold { numer: u64::MAX, denom: u64::MAX }));
}

#[test]
fn scores_compare_as_fractions() {
    // 3/4 + 3/3 against 3/4 + 3/4
    assert!(is_higher_score(3, 3, 3, 4, 4));
    assert!(!is_higher_score(3, 4, 3, 3, 4));
    assert!(!is_higher_score(3, 4, 3, 4, 4));
    // 2/6 + 2/3 is 1, and so is 3/6 + 3/6
    assert!(!is_higher_score(2, 3, 3, 6, 6));
    assert!(!is_higher_score(3, 6, 2, 3, 6));
    // 1/3 + 1/2 against 1/3 + 1/3
    assert!(is_higher_score(1, 2, 1, 3, 3));
    assert!(is_higher_score(1, 1, 0, 1, 0));
    let m = usize::MAX;
    assert!(is_higher_score(m, m - 1, m, m, m));
    assert!(!is_higher_score(m, m, m, m - 1, m));
    assert!(!is_higher_score(m, m, m, m, m));
    assert!(is_higher_score(m, m, m - 1, m, m));
}

#[test]
fn common_characters_are_the_paired_steps() {
    let script = vec![
        DiffItem::Both('a', 'a'),
        DiffItem::Left('b'),
        DiffItem::Right('c'),
        DiffItem::Both('d', 'd'),
    ];
    assert_eq!(count_common(&script), 2);
    assert_eq!(count_common(&Vec::new()), 0);
}

#[test]
fn texts_fit_up_to_the_size_of_the_table() {
    assert!(fits(0, 0));
    assert!(fits(10_000, 10_000));
    let limit = (isize::MAX as usize) / 128;
    assert!(fits(limit - 1, 0));
    assert!(!fits(limit, 0));
    assert!(!fits(0, limit));
    assert!(!fits(usize::MAX, usize::MAX));
    assert!(!fits(usize::MAX, 1));
    assert!(fits(limit / 2 - 1, 1));
    assert!(!fits(limit / 2, 1));
}

#[test]
fn white_space_is_the_set_of_the_character_database() {
    let listed = |c: char| {
        let v = c as u32;
        (0x09..=0x0d).contains(&v)
            || v == 0x20
            || v == 0x85
            || v == 0xa0
            || v == 0x1680
            || (0x2000..=0x200a).contains(&v)
            || v == 0x2028
            || v == 0x2029
            || v == 0x202f
            || v == 0x205f
            || v == 0x3000
    };
    let mut white = 0;
    for v in 0..=0x10ffff_u32 {
        if let Some(c) = char::from_u32(v) {
            let bounds = trim_bounds(&vec![c]);
            if listed(c) {
                white += 1;
                assert_eq!(bounds, (1, 1), "{:x}", v);
            } else {
                assert_eq!(bounds, (0, 1), "{:x}", v);
            }
        }
    }
    assert_eq!(white, 25);
}

#[test]
fn the_highest_score_is_picked_and_the_first_of_equals() {
    let half = Threshold { numer: 1, denom: 2 };
    // shared characters and length of each candidate, for a source of 4 bytes
    assert_eq!(pick_most_similar(4, &vec![(3, 4), (4, 4), (4, 4)], half), Some(1));
    assert_eq!(pick_most_similar(4, &vec![(4, 4), (3, 4), (4, 4)], half), Some(0));
    assert_eq!(pick_most_similar(4, &vec![(3, 4), (3, 3)], half), Some(1));
    assert_eq!(pick_most_similar(4, &vec![(3, 3), (3, 4)], half), Some(0));
    // 2/6 + 2/3 and 3/6 + 3/6 are both 1, but 2 of 6 is not more than half
    assert_eq!(pick_most_similar(6, &vec![(2, 3), (3, 6)], half), None);
    assert_eq!(pick_most_similar(6, &vec![(2, 3), (3, 6)], Threshold { numer: 1, denom: 4 }), Some(0));
    assert_eq!(pick_most_similar(6, &vec![(3, 6), (2, 3)], Threshold { numer: 1, denom: 4 }), Some(0));
    // 4/6 + 4/8 is more than 2/6 + 2/3
    assert_eq!(pick_most_similar(6, &vec![(2, 3), (4, 8)], Threshold { numer: 1, denom: 4 }), Some(1));
    // exactly the threshold is not enough, on either side
    assert_eq!(pick_most_similar(4, &vec![(2, 3)], half), None);
    assert_eq!(pick_most_similar(3, &vec![(2, 4)], half), None);
    assert_eq!(pick_most_similar(3, &vec![(2, 3)], half), Some(0));
    assert_eq!(pick_most_similar(0, &vec![(0, 0)], half), None);
    assert_eq!(pick_most_similar(4, &Vec::new(), half), None);
    let m = usize::MAX;
    assert_eq!(pick_most_similar(m, &vec![(m, m), (m, m - 1), (m, m - 1)], half), Some(1));
}

#[test]
fn lines_are_counted_as_they_are_split() {
    for text in ["", "a", "a\n", "\n", "a\n\nb", "a\r\nb\n", "\n\n\n", "x\ny\nz"] {
        assert_eq!(count_lines(&chars(text)), text.lines().count(), "{:?}", text);
        assert_eq!(count_lines(&chars(text)), lines(text).len(), "{:?}", text);
    }
}
