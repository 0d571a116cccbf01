//! What holds of the texts that go into a comparison.

use vstd::prelude::*;
use crate::diffs::script_lines;
use crate::normalize::{
    comment_close, comment_open, replacement, reverted, reverted_lines, uncommented,
    uncommented_from,
};
use crate::text::{
    first_match, first_newline, join_lines, lemma_first_match, lemma_first_newline_bounds,
    line_feeds, lines_from, lines_of, newlines, strip_cr, unterminated,
};

verus! {

/// The text holds no line feed.
pub open spec fn no_newline(s: Seq<char>) -> bool {
    forall|i: int| 0 <= i < s.len() ==> s[i] != '\n'
}

proof fn lemma_first_newline_shift(s: Seq<char>, u: Seq<char>, i: int)
    requires
        0 <= i <= u.len(),
    ensures
        first_newline(s + u, s.len() + i) == s.len() + first_newline(u, i),
    decreases u.len() - i,
{
    if i < u.len() {
        assert((s + u)[s.len() + i] == u[i]);
        if u[i] != '\n' {
            lemma_first_newline_shift(s, u, i + 1);
        }
    }
}

proof fn lemma_lines_from_shift(s: Seq<char>, u: Seq<char>, i: int)
    requires
        0 <= i <= u.len(),
    ensures
        lines_from(s + u, s.len() + i) == lines_from(u, i),
    decreases u.len() - i,
{
    if i < u.len() {
        let k = first_newline(u, i);
        lemma_first_newline_shift(s, u, i);
        lemma_first_newline_bounds(u, i);
        if k < u.len() {
            assert((s + u).subrange(s.len() + i, s.len() + k) =~= u.subrange(i, k));
            lemma_lines_from_shift(s, u, k + 1);
        } else {
            assert((s + u).subrange(s.len() + i, (s + u).len() as int) =~= u.subrange(
                i,
                u.len() as int,
            ));
        }
    }
}

proof fn lemma_first_newline_prefix(s: Seq<char>, u: Seq<char>, from: int)
    requires
        0 <= from <= s.len(),
        first_newline(s, from) < s.len(),
    ensures
        first_newline(s + u, from) == first_newline(s, from),
    decreases s.len() - from,
{
    if from < s.len() {
        assert((s + u)[from] == s[from]);
        if s[from] != '\n' {
            lemma_first_newline_prefix(s, u, from + 1);
        }
    }
}

proof fn lemma_lines_from_append(s: Seq<char>, u: Seq<char>, from: int)
    requires
        0 <= from <= s.len(),
        s.len() > 0 ==> s.last() == '\n',
    ensures
        lines_from(s + u, from) == lines_from(s, from) + lines_of(u),
    decreases s.len() - from,
{
    if from == s.len() {
        lemma_lines_from_shift(s, u, 0);
        assert(lines_from(s, from) + lines_of(u) =~= lines_of(u));
    } else {
        let k = first_newline(s, from);
        lemma_first_newline_bounds(s, from);
        if k >= s.len() {
            assert(s[s.len() - 1] != '\n');
        }
        lemma_first_newline_prefix(s, u, from);
        assert((s + u).subrange(from, k) =~= s.subrange(from, k));
        lemma_lines_from_append(s, u, k + 1);
        assert(lines_from(s + u, from) =~= lines_from(s, from) + lines_of(u));
    }
}

proof fn lemma_lines_of_row(r: Seq<char>)
    requires
        no_newline(r),
    ensures
        lines_of(r + seq!['\n']) == seq![strip_cr(r)],
{
    let s = r + seq!['\n'];
    lemma_first_newline_bounds(s, 0);
    let k = first_newline(s, 0);
    assert(s[r.len() as int] == '\n');
    if k < r.len() {
        assert(s[k] == r[k]);
    }
    assert(k == r.len());
    assert(s.subrange(0, k) =~= r);
    assert(lines_from(s, k + 1) =~= Seq::<Seq<char>>::empty());
    assert(lines_of(s) =~= seq![strip_cr(r)]);
}

proof fn lemma_lines_of_join(rows: Seq<Seq<char>>)
    requires
        forall|i: int| 0 <= i < rows.len() ==> no_newline(#[trigger] rows[i]),
    ensures
        lines_of(join_lines(rows)) == rows.map_values(|r: Seq<char>| strip_cr(r)),
    decreases rows.len(),
{
    if rows.len() == 0 {
        assert(lines_of(join_lines(rows)) =~= rows.map_values(|r: Seq<char>| strip_cr(r)));
    } else {
        let init = rows.drop_last();
        let last = rows.last();
        assert forall|i: int| 0 <= i < init.len() implies no_newline(#[trigger] init[i]) by {
            assert(init[i] == rows[i]);
        }
        lemma_lines_of_join(init);
        let head = join_lines(init);
        assert(head.len() > 0 ==> head.last() == '\n');
        lemma_lines_from_append(head, last + seq!['\n'], 0);
        lemma_lines_of_row(last);
        assert(join_lines(rows) =~= head + (last + seq!['\n']));
        assert(lines_of(join_lines(rows)) =~= rows.map_values(|r: Seq<char>| strip_cr(r)));
    }
}

proof fn lemma_lines_from_no_newline(s: Seq<char>, from: int)
    requires
        0 <= from <= s.len(),
    ensures
        forall|i: int|
            0 <= i < lines_from(s, from).len() ==> no_newline(#[trigger] lines_from(s, from)[i]),
    decreases s.len() - from,
{
    if from < s.len() {
        let k = first_newline(s, from);
        lemma_first_newline_bounds(s, from);
        if k < s.len() {
            lemma_lines_from_no_newline(s, k + 1);
            let head = strip_cr(s.subrange(from, k));
            let rest = lines_from(s, k + 1);
            assert(no_newline(head)) by {
                assert forall|j: int| 0 <= j < head.len() implies head[j] != '\n' by {
                    assert(head[j] == s[from + j]);
                }
            }
            assert forall|i: int| 0 <= i < lines_from(s, from).len() implies no_newline(
                #[trigger] lines_from(s, from)[i],
            ) by {
                if i > 0 {
                    assert(lines_from(s, from)[i] == rest[i - 1]);
                }
            }
        } else {
            let only = s.subrange(from, s.len() as int);
            assert(no_newline(only)) by {
                assert forall|j: int| 0 <= j < only.len() implies only[j] != '\n' by {
                    assert(only[j] == s[from + j]);
                }
            }
        }
    }
}

/// Undoing the headers on lines of code keeps the number of lines: line
/// `i` of the result is line `i` of the text, without the header where it is
/// taken, and without a carriage return at its end.
pub proof fn law_reverted_keeps_lines(text: Seq<char>, header: Seq<char>)
    ensures
        lines_of(reverted(text, true, header)) == reverted_lines(
            lines_of(text),
            header,
        ).map_values(|r: Seq<char>| strip_cr(r)),
        lines_of(reverted(text, true, header)).len() == lines_of(text).len(),
{
    let lines = lines_of(text);
    let rows = reverted_lines(lines, header);
    lemma_lines_from_no_newline(text, 0);
    assert forall|i: int| 0 <= i < rows.len() implies no_newline(#[trigger] rows[i]) by {
        assert(no_newline(lines[i]));
        if rows[i] != lines[i] {
            assert forall|j: int| 0 <= j < rows[i].len() implies rows[i][j] != '\n' by {
                assert(rows[i][j] == lines[i][j + header.len()]);
            }
        }
    }
    lemma_lines_of_join(rows);
}

proof fn lemma_newlines_add(a: Seq<char>, b: Seq<char>)
    ensures
        newlines(a + b) == newlines(a) + newlines(b),
    decreases b.len(),
{
    if b.len() == 0 {
        assert(a + b =~= a);
    } else {
        lemma_newlines_add(a, b.drop_last());
        assert((a + b).drop_last() =~= a + b.drop_last());
    }
}

/// A text has no more line feeds than characters, and no more lines.
pub proof fn lemma_newlines_bound(s: Seq<char>)
    ensures
        newlines(s) <= s.len(),
        unterminated(s) ==> newlines(s) < s.len(),
        lines_of(s).len() <= s.len(),
    decreases s.len(),
{
    if s.len() > 0 {
        lemma_newlines_bound(s.drop_last());
    }
    lemma_lines_count(s);
}

proof fn lemma_newlines_of_line_feeds(s: Seq<char>)
    ensures
        newlines(line_feeds(s)) == newlines(s),
    decreases s.len(),
{
    if s.len() > 0 {
        lemma_newlines_of_line_feeds(s.drop_last());
        if s.last() == '\n' {
            assert(line_feeds(s).drop_last() =~= line_feeds(s.drop_last()));
        }
    }
}

proof fn lemma_newlines_none(s: Seq<char>)
    requires
        no_newline(s),
    ensures
        newlines(s) == 0,
    decreases s.len(),
{
    if s.len() > 0 {
        assert(s.last() == s[s.len() - 1]);
        lemma_newlines_none(s.drop_last());
    }
}

/// A text has one line for each line feed, and one more if its last line is
/// not ended by one.
proof fn lemma_lines_from_count(s: Seq<char>, from: int)
    requires
        0 <= from <= s.len(),
    ensures
        lines_from(s, from).len() == newlines(s.subrange(from, s.len() as int)) + if from < s.len()
            && s.last() != '\n' {
            1nat
        } else {
            0nat
        },
    decreases s.len() - from,
{
    let tail = s.subrange(from, s.len() as int);
    if from < s.len() {
        let k = first_newline(s, from);
        lemma_first_newline_bounds(s, from);
        let head = s.subrange(from, k);
        assert(no_newline(head)) by {
            assert forall|i: int| 0 <= i < head.len() implies head[i] != '\n' by {
                assert(head[i] == s[from + i]);
            }
        }
        lemma_newlines_none(head);
        if k < s.len() {
            lemma_lines_from_count(s, k + 1);
            let rest = s.subrange(k + 1, s.len() as int);
            assert(tail =~= head + (seq!['\n'] + rest));
            lemma_newlines_add(head, seq!['\n'] + rest);
            lemma_newlines_add(seq!['\n'], rest);
            let one = seq!['\n'];
            assert(one.last() == '\n');
            assert(one.drop_last() =~= Seq::<char>::empty());
            assert(newlines(Seq::<char>::empty()) == 0);
            assert(newlines(one) == 1);
        } else {
            assert(tail =~= head);
            assert(s.last() == s[s.len() - 1]);
        }
    } else {
        assert(tail =~= Seq::<char>::empty());
    }
}

/// A text has one line for each line feed, and one more if its last line is
/// not ended by one.
pub proof fn lemma_lines_count(s: Seq<char>)
    ensures
        lines_of(s).len() == newlines(s) + if unterminated(s) {
            1nat
        } else {
            0nat
        },
        script_lines(s).len() == newlines(s) + if s.len() > 0 {
            1nat
        } else {
            0nat
        },
{
    lemma_lines_from_count(s, 0);
    assert(s.subrange(0, s.len() as int) =~= s);
}

proof fn lemma_uncommented_from_line_feeds(
    s: Seq<char>,
    pos: int,
    keep: bool,
    begin: Seq<char>,
    end: Seq<char>,
)
    requires
        0 <= pos <= s.len(),
        keep ==> no_newline(begin) && no_newline(end),
    ensures
        uncommented_from(s, pos, keep, begin, end) matches Some(r) ==> newlines(r) == newlines(
            s.subrange(pos, s.len() as int),
        ),
        uncommented_from(s, pos, keep, begin, end) matches Some(r) ==> (pos < s.len() && s.last()
            == '\n' ==> r.len() > 0 && r.last() == '\n'),
        uncommented_from(s, pos, keep, begin, end) matches Some(r) ==> (pos == s.len() ==> r.len()
            == 0),
    decreases s.len() - pos,
{
    reveal_strlit("<!--");
    reveal_strlit("-->");
    let open = comment_open();
    let close = comment_close();
    lemma_first_match(s, pos, open);
    match first_match(s, pos, open) {
        None => {},
        Some(i) => {
            lemma_first_match(s, i + open.len(), close);
            match first_match(s, i + open.len(), close) {
                None => {},
                Some(j) => {
                    let next = j + close.len();
                    lemma_uncommented_from_line_feeds(s, next, keep, begin, end);
                    match uncommented_from(s, next, keep, begin, end) {
                        None => {},
                        Some(rest) => {
                            let head = s.subrange(pos, i);
                            let body = s.subrange(i + open.len(), j);
                            let mid = replacement(body, keep, begin, end);
                            let r = head + mid + rest;
                            let tail = s.subrange(pos, s.len() as int);
                            let after = s.subrange(next, s.len() as int);
                            assert(s.subrange(i, i + open.len()) == open);
                            assert(s.subrange(j, j + close.len()) == close);
                            assert(tail =~= head + (open + (body + (close + after))));
                            lemma_newlines_add(head, open + (body + (close + after)));
                            lemma_newlines_add(open, body + (close + after));
                            lemma_newlines_add(body, close + after);
                            lemma_newlines_add(close, after);
                            assert(no_newline(open));
                            assert(no_newline(close));
                            lemma_newlines_none(open);
                            lemma_newlines_none(close);
                            if keep {
                                lemma_newlines_none(begin);
                                lemma_newlines_none(end);
                                lemma_newlines_add(begin + body, end);
                                lemma_newlines_add(begin, body);
                            } else {
                                lemma_newlines_of_line_feeds(body);
                            }
                            lemma_newlines_add(head + mid, rest);
                            lemma_newlines_add(head, mid);
                            if s.last() == '\n' {
                                // the text does not end with the comment
                                assert(s[j + close.len() - 1] == close[close.len() - 1]) by {
                                    assert(s.subrange(j, j + close.len())[close.len() - 1] == s[j
                                        + close.len() - 1]);
                                }
                                assert(next < s.len());
                                assert(r.last() == rest.last());
                            }
                        },
                    }
                },
            }
        },
    }
}

/// Taking the comments out keeps the line feeds of the text, where the
/// comments go without a trace or the markers in their place hold no line
/// feed.
pub proof fn law_uncommented_keeps_line_feeds(
    s: Seq<char>,
    keep: bool,
    begin: Seq<char>,
    end: Seq<char>,
)
    requires
        keep ==> no_newline(begin) && no_newline(end),
    ensures
        uncommented(s, keep, begin, end) matches Some(r) ==> newlines(r) == newlines(s),
{
    lemma_uncommented_from_line_feeds(s, 0, keep, begin, end);
    assert(s.subrange(0, s.len() as int) =~= s);
}

/// Taking the comments out keeps the number of lines, so that a line of the
/// result has the number that it has in the text. It holds where the last
/// line of the text is ended by a line feed, or is not all comment.
pub proof fn law_uncommented_keeps_lines(
    s: Seq<char>,
    keep: bool,
    begin: Seq<char>,
    end: Seq<char>,
)
    requires
        keep ==> no_newline(begin) && no_newline(end),
        uncommented(s, keep, begin, end) is Some,
        unterminated(s) ==> unterminated(uncommented(s, keep, begin, end)->0),
    ensures
        lines_of(uncommented(s, keep, begin, end)->0).len() == lines_of(s).len(),
        script_lines(uncommented(s, keep, begin, end)->0).len() == script_lines(s).len(),
{
    let r = uncommented(s, keep, begin, end)->0;
    lemma_uncommented_from_line_feeds(s, 0, keep, begin, end);
    assert(s.subrange(0, s.len() as int) =~= s);
    lemma_lines_count(s);
    lemma_lines_count(r);
}

} // verus!
