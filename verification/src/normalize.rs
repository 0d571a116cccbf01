//! What is taken out of the two texts before they are lined up: the comments
//! of the source, and the headers that a translation puts before lines of
//! code.

use vstd::prelude::*;
use crate::align::closes_fence;
use crate::matcher::{MatchError, Matcher};
use crate::text::{
    find_from, first_match, from_chars, has_at, join_lines, lemma_first_match, line_feeds,
    lines_of, newlines, push_all, push_line_feeds, rows, split_lines, to_chars, trimmed,
    trimmed_ends_with, trimmed_starts_with,
};

verus! {

/// What a comment begins with.
pub open spec fn comment_open() -> Seq<char> {
    "<!--"@
}

/// What a comment ends with.
pub open spec fn comment_close() -> Seq<char> {
    "-->"@
}

/// What stands for the comment with the body `body`: the body between the
/// two markers if it is kept, else only the line feeds of the body, so that
/// every line after the comment keeps its number.
pub open spec fn replacement(body: Seq<char>, keep: bool, begin: Seq<char>, end: Seq<char>) -> Seq<
    char,
> {
    if keep {
        begin + body + end
    } else {
        line_feeds(body)
    }
}

/// `s` from `pos` on, without its comments. A comment reaches from a
/// `<!--` to the first `-->` after it; of a comment that is taken out, the
/// line feeds stay. `None` if a comment begins and does not end.
pub open spec fn uncommented_from(
    s: Seq<char>,
    pos: int,
    keep: bool,
    begin: Seq<char>,
    end: Seq<char>,
) -> Option<Seq<char>>
    decreases s.len() - pos,
    via uncommented_from_decreases
{
    match first_match(s, pos, comment_open()) {
        None => Some(s.subrange(pos, s.len() as int)),
        Some(i) => match first_match(s, i + comment_open().len(), comment_close()) {
            None => None,
            Some(j) => match uncommented_from(s, j + comment_close().len(), keep, begin, end) {
                None => None,
                Some(rest) => Some(
                    s.subrange(pos, i) + replacement(
                        s.subrange(i + comment_open().len(), j),
                        keep,
                        begin,
                        end,
                    ) + rest,
                ),
            },
        },
    }
}

#[via_fn]
proof fn uncommented_from_decreases(
    s: Seq<char>,
    pos: int,
    keep: bool,
    begin: Seq<char>,
    end: Seq<char>,
) {
    reveal_strlit("<!--");
    lemma_first_match(s, pos, comment_open());
    if let Some(i) = first_match(s, pos, comment_open()) {
        lemma_first_match(s, i + comment_open().len(), comment_close());
    }
}

/// `s` without its comments; with `keep`, each comment leaves its body
/// between `begin` and `end`.
pub open spec fn uncommented(s: Seq<char>, keep: bool, begin: Seq<char>, end: Seq<char>) -> Option<
    Seq<char>,
> {
    uncommented_from(s, 0, keep, begin, end)
}

/// The line, trimmed, starts with a fence.
pub open spec fn opens_fence(c: Seq<char>) -> bool {
    "```"@.is_prefix_of(trimmed(c))
}

/// Whether a line lies in a code block, given whether the line before it
/// did: a fence outside of a block opens one, a fence inside closes it.
pub open spec fn in_block(inside: bool, line: Seq<char>) -> bool {
    if opens_fence(line) && !inside {
        true
    } else if closes_fence(line) && inside {
        false
    } else {
        inside
    }
}

/// Whether line `n - 1` of `lines` lies in a code block; `false` for `n`
/// zero.
pub open spec fn block_state(lines: Seq<Seq<char>>, n: int) -> bool
    decreases n,
{
    if n <= 0 || n > lines.len() {
        false
    } else {
        in_block(block_state(lines, n - 1), lines[n - 1])
    }
}

/// The line without the header, if it lies in a code block and starts with
/// the header.
pub open spec fn without_header(inside: bool, line: Seq<char>, header: Seq<char>) -> Seq<char> {
    if inside && header.is_prefix_of(line) {
        line.skip(header.len() as int)
    } else {
        line
    }
}

/// The lines, each without the header where it lies in a code block.
pub open spec fn reverted_lines(lines: Seq<Seq<char>>, header: Seq<char>) -> Seq<Seq<char>> {
    Seq::new(
        lines.len(),
        |i: int| without_header(block_state(lines, i + 1), lines[i], header),
    )
}

/// The text with the headers taken from its lines of code, each line ended
/// by a line feed; the text as it is if this is not enabled.
pub open spec fn reverted(text: Seq<char>, enabled: bool, header: Seq<char>) -> Seq<char> {
    if enabled {
        join_lines(reverted_lines(lines_of(text), header))
    } else {
        text
    }
}

impl Matcher {
    /// Takes the comments out of the source. With `keep_markdown_comment`,
    /// each comment leaves its body between the two markers; without, it
    /// leaves its line feeds, so that the text keeps its line feeds and every
    /// line its number. Fails if a comment begins and does not end.
    pub fn remove_markdown_comment(&self, source: &str) -> (r: Result<String, MatchError>)
        ensures
            match uncommented(
                source@,
                self.keep_markdown_comment,
                self.markdown_comment_begin@,
                self.markdown_comment_end@,
            ) {
                Some(t) => r matches Ok(s) && s@ == t,
                None => r == Err::<String, MatchError>(MatchError::MalformedInput),
            },
            !self.keep_markdown_comment ==> (r matches Ok(s) ==> newlines(s@) == newlines(source@)),
    {
        let s = to_chars(source);
        let open = to_chars("<!--");
        let close = to_chars("-->");
        let begin = to_chars(self.markdown_comment_begin.as_str());
        let end = to_chars(self.markdown_comment_end.as_str());
        let keep = self.keep_markdown_comment;
        let mut out: Vec<char> = Vec::new();
        let mut pos: usize = 0;
        let ghost whole = uncommented(s@, keep, begin@, end@);
        proof {
            if !self.keep_markdown_comment {
                crate::normalize_laws::law_uncommented_keeps_line_feeds(
                    source@,
                    false,
                    self.markdown_comment_begin@,
                    self.markdown_comment_end@,
                );
            }
        }
        loop
            invariant
                pos <= s.len(),
                open@ == comment_open(),
                close@ == comment_close(),
                begin@ == self.markdown_comment_begin@,
                end@ == self.markdown_comment_end@,
                keep == self.keep_markdown_comment,
                s@ == source@,
                whole == uncommented(s@, keep, begin@, end@),
                !keep ==> (whole matches Some(t) ==> newlines(t) == newlines(s@)),
                whole == match uncommented_from(s@, pos as int, keep, begin@, end@) {
                    Some(rest) => Some(out@ + rest),
                    None => None,
                },
            decreases s.len() - pos,
        {
            proof {
                reveal_strlit("<!--");
            }
            match find_from(&s, pos, &open) {
                None => {
                    let tail = crate::text::copy_range(&s, pos, s.len());
                    push_all(&mut out, &tail);
                    return Ok(from_chars(&out));
                },
                Some(i) => {
                    match find_from(&s, i + open.len(), &close) {
                        None => {
                            return Err(MatchError::MalformedInput);
                        },
                        Some(j) => {
                            let ghost before = out@;
                            let head = crate::text::copy_range(&s, pos, i);
                            push_all(&mut out, &head);
                            if keep {
                                let body = crate::text::copy_range(&s, i + open.len(), j);
                                push_all(&mut out, &begin);
                                push_all(&mut out, &body);
                                push_all(&mut out, &end);
                            } else {
                                push_line_feeds(&mut out, &s, i + open.len(), j);
                            }
                            assert(out@ =~= before + (s@.subrange(pos as int, i as int)
                                + replacement(
                                s@.subrange(i + open.len(), j as int),
                                keep,
                                begin@,
                                end@,
                            )));
                            pos = j + close.len();
                        },
                    }
                },
            }
        }
    }

    /// Undoes the headers that the translation puts before lines of code.
    ///
    /// Does nothing unless `enable_code_comment_tweak` is set. Else every
    /// line that lies in a fenced code block and starts with
    /// `code_comment_header` loses that header, and every line ends with a
    /// line feed.
    pub fn revert_code_comment(&self, target: &str) -> (r: String)
        ensures
            r@ == reverted(target@, self.enable_code_comment_tweak, self.code_comment_header@),
    {
        if !self.enable_code_comment_tweak {
            return target.to_owned();
        }
        let text = to_chars(target);
        let lines = split_lines(&text);
        let header = to_chars(self.code_comment_header.as_str());
        let fence = to_chars("```");
        let mut out = String::new();
        let mut inside = false;
        let mut i: usize = 0;
        let ghost all = rows(lines@);
        let ghost goal = reverted_lines(all, header@);
        assert(goal.take(0) =~= Seq::empty());
        while i < lines.len()
            invariant
                i <= lines.len(),
                all == rows(lines@),
                goal == reverted_lines(all, header@),
                fence@ == "```"@,
                inside == block_state(all, i as int),
                out@ == join_lines(goal.take(i as int)),
            decreases lines.len() - i,
        {
            let line = &lines[i];
            assert(all[i as int] == line@);
            if trimmed_starts_with(line, &fence) && !inside {
                inside = true;
            } else if trimmed_ends_with(line, &fence) && inside {
                inside = false;
            }
            let from: usize = if inside && has_at(line, 0, &header) {
                header.len()
            } else {
                0
            };
            proof {
                assert(line@.subrange(from as int, line.len() as int) =~= goal[i as int]);
                assert(goal.take(i + 1).drop_last() =~= goal.take(i as int));
            }
            crate::text::push_range(&mut out, line, from, line.len());
            out.push('\n');
            i += 1;
            assert(out@ =~= join_lines(goal.take(i as int)));
        }
        assert(goal.take(lines.len() as int) =~= goal);
        out
    }
}

} // verus!
