//! Text as sequences of characters: searching, trimming and splitting into lines.
//!
//! Every function here works on `Vec<char>` and is specified over `Seq<char>`,
//! so that positions are character positions and no encoding is involved.

use vstd::prelude::*;

verus! {

/// Whether `c` is white space: one of the code points that the Unicode
/// Character Database lists with the property `White_Space`.
pub open spec fn is_white_space(c: char) -> bool {
    let v = c as u32;
    ||| 0x09 <= v <= 0x0d
    ||| v == 0x20
    ||| v == 0x85
    ||| v == 0xa0
    ||| v == 0x1680
    ||| 0x2000 <= v <= 0x200a
    ||| v == 0x2028
    ||| v == 0x2029
    ||| v == 0x202f
    ||| v == 0x205f
    ||| v == 0x3000
}

/// `char::is_whitespace` of the standard library, which says whether a
/// character has the property `White_Space`: its answer is
/// [`is_white_space`].
pub assume_specification[ char::is_whitespace ](c: char) -> (r: bool)
    ensures
        r == is_white_space(c),
;

/// `String::push` of the standard library appends one character.
pub assume_specification[ String::push ](s: &mut String, ch: char)
    ensures
        final(s)@ == old(s)@.push(ch),
;

/// `pat` occurs in `s` at position `i`.
pub open spec fn matches_at(s: Seq<char>, i: int, pat: Seq<char>) -> bool {
    0 <= i && i + pat.len() <= s.len() && s.subrange(i, i + pat.len()) == pat
}

/// `pat` occurs somewhere in `s`.
pub open spec fn occurs_in(pat: Seq<char>, s: Seq<char>) -> bool {
    exists|i: int| matches_at(s, i, pat)
}

/// `i` is the first position at or after `from` where `pat` occurs in `s`.
pub open spec fn is_first_match(s: Seq<char>, from: int, pat: Seq<char>, i: int) -> bool {
    &&& from <= i
    &&& matches_at(s, i, pat)
    &&& forall|j: int| from <= j < i ==> !matches_at(s, j, pat)
}

/// The first position at or after `from` where `pat` occurs in `s`, if there
/// is one.
pub open spec fn first_match(s: Seq<char>, from: int, pat: Seq<char>) -> Option<int> {
    if exists|i: int| is_first_match(s, from, pat, i) {
        Some(choose|i: int| is_first_match(s, from, pat, i))
    } else {
        None
    }
}

/// `pat` does not occur in `s` at or after `from`.
pub open spec fn no_match_from(s: Seq<char>, from: int, pat: Seq<char>) -> bool {
    forall|j: int| from <= j ==> !matches_at(s, j, pat)
}

/// The first position at or after `i` that holds no white space.
pub open spec fn skip_whitespace(s: Seq<char>, i: int) -> int
    decreases s.len() - i,
{
    if 0 <= i < s.len() && is_white_space(s[i]) {
        skip_whitespace(s, i + 1)
    } else {
        i
    }
}

/// The end of the last stretch before `j` that holds no white space, not
/// going below `from`.
pub open spec fn back_whitespace(s: Seq<char>, from: int, j: int) -> int
    decreases j,
{
    if 0 <= from < j <= s.len() && is_white_space(s[j - 1]) {
        back_whitespace(s, from, j - 1)
    } else {
        j
    }
}

/// Where the trimmed text starts.
pub open spec fn trim_start(s: Seq<char>) -> int {
    skip_whitespace(s, 0)
}

/// Where the trimmed text ends.
pub open spec fn trim_end(s: Seq<char>) -> int {
    back_whitespace(s, trim_start(s), s.len() as int)
}

/// `s` without its leading and trailing white space.
pub open spec fn trimmed(s: Seq<char>) -> Seq<char> {
    s.subrange(trim_start(s), trim_end(s))
}

/// The position of the first line feed at or after `from`, or the length of
/// `s` if there is none.
pub open spec fn first_newline(s: Seq<char>, from: int) -> int
    decreases s.len() - from,
{
    if from < 0 || from >= s.len() {
        s.len() as int
    } else if s[from] == '\n' {
        from
    } else {
        first_newline(s, from + 1)
    }
}

/// `s` without one trailing carriage return.
pub open spec fn strip_cr(s: Seq<char>) -> Seq<char> {
    if s.len() > 0 && s.last() == '\r' {
        s.drop_last()
    } else {
        s
    }
}

/// The line feeds of `s`, and nothing else of it.
pub open spec fn line_feeds(s: Seq<char>) -> Seq<char>
    decreases s.len(),
{
    if s.len() == 0 {
        Seq::empty()
    } else if s.last() == '\n' {
        line_feeds(s.drop_last()).push('\n')
    } else {
        line_feeds(s.drop_last())
    }
}

/// The number of line feeds in `s`.
pub open spec fn newlines(s: Seq<char>) -> nat
    decreases s.len(),
{
    if s.len() == 0 {
        0
    } else if s.last() == '\n' {
        newlines(s.drop_last()) + 1
    } else {
        newlines(s.drop_last())
    }
}

/// The text ends with a line that no line feed ends.
pub open spec fn unterminated(s: Seq<char>) -> bool {
    s.len() > 0 && s.last() != '\n'
}

/// The lines of `s` from position `from` on.
pub open spec fn lines_from(s: Seq<char>, from: int) -> Seq<Seq<char>>
    decreases s.len() - from,
    via lines_from_decreases
{
    if from < 0 || from >= s.len() {
        Seq::empty()
    } else {
        let k = first_newline(s, from);
        if k >= s.len() {
            seq![s.subrange(from, s.len() as int)]
        } else {
            seq![strip_cr(s.subrange(from, k))] + lines_from(s, k + 1)
        }
    }
}

#[via_fn]
proof fn lines_from_decreases(s: Seq<char>, from: int) {
    if 0 <= from < s.len() {
        lemma_first_newline_bounds(s, from);
    }
}

/// The lines of `s`. A line ends at a line feed, or at a carriage return
/// directly followed by a line feed; neither belongs to the line. What follows
/// the last line feed is a line of its own unless it is empty.
pub open spec fn lines_of(s: Seq<char>) -> Seq<Seq<char>> {
    lines_from(s, 0)
}

/// The contents of a vector of rows.
pub open spec fn rows(v: Seq<Vec<char>>) -> Seq<Seq<char>> {
    v.map_values(|r: Vec<char>| r@)
}

/// The lines joined again, each followed by a line feed.
pub open spec fn join_lines(lines: Seq<Seq<char>>) -> Seq<char>
    decreases lines.len(),
{
    if lines.len() == 0 {
        Seq::empty()
    } else {
        join_lines(lines.drop_last()) + lines.last() + seq!['\n']
    }
}

pub proof fn lemma_first_newline_bounds(s: Seq<char>, from: int)
    requires
        0 <= from <= s.len(),
    ensures
        from <= first_newline(s, from) <= s.len(),
        first_newline(s, from) < s.len() ==> s[first_newline(s, from)] == '\n',
        forall|j: int| from <= j < first_newline(s, from) ==> s[j] != '\n',
    decreases s.len() - from,
{
    if from < s.len() && s[from] != '\n' {
        lemma_first_newline_bounds(s, from + 1);
    }
}

/// No line is longer than what is left of the text.
pub proof fn lemma_lines_from_short(s: Seq<char>, from: int)
    requires
        0 <= from <= s.len(),
    ensures
        forall|i: int|
            0 <= i < lines_from(s, from).len() ==> (#[trigger] lines_from(s, from)[i]).len()
                <= s.len() - from,
    decreases s.len() - from,
{
    if from < s.len() {
        let k = first_newline(s, from);
        lemma_first_newline_bounds(s, from);
        if k < s.len() {
            lemma_lines_from_short(s, k + 1);
            let rest = lines_from(s, k + 1);
            assert forall|i: int| 0 <= i < lines_from(s, from).len() implies (
            #[trigger] lines_from(s, from)[i]).len() <= s.len() - from by {
                if i > 0 {
                    assert(lines_from(s, from)[i] == rest[i - 1]);
                }
            }
        }
    }
}

/// The characters of a string.
pub fn to_chars(s: &str) -> (v: Vec<char>)
    ensures
        v@ == s@,
{
    let mut v: Vec<char> = Vec::new();
    for c in it: s.chars()
        invariant
            v@ == it.seq().take(it.index() as int),
            it.seq() == s@,
    {
        v.push(c);
    }
    v
}

/// Appends the characters `s[from..to]` to a string.
pub fn push_range(out: &mut String, s: &Vec<char>, from: usize, to: usize)
    requires
        from <= to <= s.len(),
    ensures
        final(out)@ == old(out)@ + s@.subrange(from as int, to as int),
{
    let mut i: usize = from;
    while i < to
        invariant
            from <= i <= to <= s.len(),
            out@ == old(out)@ + s@.subrange(from as int, i as int),
        decreases to - i,
    {
        out.push(s[i]);
        i += 1;
        assert(s@.subrange(from as int, i as int) == s@.subrange(from as int, i - 1).push(
            s@[i - 1],
        ));
    }
}

/// The string that holds the characters of `s`.
pub fn from_chars(s: &Vec<char>) -> (r: String)
    ensures
        r@ == s@,
{
    let mut r = String::new();
    push_range(&mut r, s, 0, s.len());
    assert(s@.subrange(0, s.len() as int) == s@);
    r
}

/// A copy of the characters `s[from..to]`.
pub fn copy_range(s: &Vec<char>, from: usize, to: usize) -> (r: Vec<char>)
    requires
        from <= to <= s.len(),
    ensures
        r@ == s@.subrange(from as int, to as int),
{
    let mut r: Vec<char> = Vec::new();
    let mut i: usize = from;
    while i < to
        invariant
            from <= i <= to <= s.len(),
            r@ == s@.subrange(from as int, i as int),
        decreases to - i,
    {
        r.push(s[i]);
        i += 1;
    }
    r
}

/// Appends the line feeds among the characters `s[from..to]`.
pub fn push_line_feeds(out: &mut Vec<char>, s: &Vec<char>, from: usize, to: usize)
    requires
        from <= to <= s.len(),
    ensures
        final(out)@ == old(out)@ + line_feeds(s@.subrange(from as int, to as int)),
{
    let mut i: usize = from;
    assert(s@.subrange(from as int, from as int) =~= Seq::empty());
    assert(out@ =~= old(out)@ + line_feeds(s@.subrange(from as int, i as int)));
    while i < to
        invariant
            from <= i <= to <= s.len(),
            out@ == old(out)@ + line_feeds(s@.subrange(from as int, i as int)),
        decreases to - i,
    {
        assert(s@.subrange(from as int, i + 1).drop_last() =~= s@.subrange(from as int, i as int));
        if s[i] == '\n' {
            out.push('\n');
        }
        i += 1;
        assert(out@ =~= old(out)@ + line_feeds(s@.subrange(from as int, i as int)));
    }
}

/// Appends all of `s` to `out`.
pub fn push_all(out: &mut Vec<char>, s: &Vec<char>)
    ensures
        final(out)@ == old(out)@ + s@,
{
    let mut i: usize = 0;
    while i < s.len()
        invariant
            i <= s.len(),
            out@ == old(out)@ + s@.subrange(0, i as int),
        decreases s.len() - i,
    {
        out.push(s[i]);
        i += 1;
    }
    assert(s@.subrange(0, s.len() as int) == s@);
}

/// Whether `pat` occurs in `s` at position `i`.
pub fn has_at(s: &Vec<char>, i: usize, pat: &Vec<char>) -> (r: bool)
    ensures
        r == matches_at(s@, i as int, pat@),
{
    if pat.len() > s.len() || i > s.len() - pat.len() {
        return false;
    }
    let mut k: usize = 0;
    while k < pat.len()
        invariant
            k <= pat.len(),
            i + pat.len() <= s.len(),
            forall|j: int| 0 <= j < k ==> s@[i + j] == pat@[j],
        decreases pat.len() - k,
    {
        if s[i + k] != pat[k] {
            assert(s@.subrange(i as int, i + pat.len())[k as int] != pat@[k as int]);
            return false;
        }
        k += 1;
    }
    assert(s@.subrange(i as int, i + pat.len()) =~= pat@);
    true
}

/// There is at most one first match, and it is the value of `first_match`.
pub proof fn lemma_first_match(s: Seq<char>, from: int, pat: Seq<char>)
    ensures
        forall|i: int| is_first_match(s, from, pat, i) ==> first_match(s, from, pat) == Some(i),
        no_match_from(s, from, pat) ==> first_match(s, from, pat) is None,
        first_match(s, from, pat) matches Some(i) ==> is_first_match(s, from, pat, i),
{
    assert forall|i: int| is_first_match(s, from, pat, i) implies first_match(s, from, pat)
        == Some(i) by {
        let j = choose|j: int| is_first_match(s, from, pat, j);
        assert(is_first_match(s, from, pat, j));
        if j < i {
            assert(!matches_at(s, j, pat));
        } else if i < j {
            assert(!matches_at(s, i, pat));
        }
    }
}

/// The first position at or after `from` where `pat` occurs in `s`.
pub fn find_from(s: &Vec<char>, from: usize, pat: &Vec<char>) -> (r: Option<usize>)
    ensures
        match r {
            Some(i) => is_first_match(s@, from as int, pat@, i as int) && first_match(
                s@,
                from as int,
                pat@,
            ) == Some(i as int),
            None => no_match_from(s@, from as int, pat@) && first_match(s@, from as int, pat@)
                is None,
        },
{
    proof {
        lemma_first_match(s@, from as int, pat@);
    }
    let mut i: usize = from;
    while i <= s.len()
        invariant
            from <= i,
            forall|j: int| from <= j < i ==> !matches_at(s@, j, pat@),
        decreases s.len() + 1 - i,
    {
        if has_at(s, i, pat) {
            return Some(i);
        }
        if i == s.len() {
            return None;
        }
        i += 1;
    }
    None
}

/// Whether `pat` occurs in `s`.
pub fn contains(s: &Vec<char>, pat: &Vec<char>) -> (r: bool)
    ensures
        r == occurs_in(pat@, s@),
{
    match find_from(s, 0, pat) {
        Some(_) => true,
        None => false,
    }
}

/// The bounds of `s` without its leading and trailing white space.
pub fn trim_bounds(s: &Vec<char>) -> (r: (usize, usize))
    ensures
        r.0 == trim_start(s@),
        r.1 == trim_end(s@),
        r.0 <= r.1 <= s.len(),
{
    let mut a: usize = 0;
    while a < s.len() && s[a].is_whitespace()
        invariant
            a <= s.len(),
            skip_whitespace(s@, 0) == skip_whitespace(s@, a as int),
        decreases s.len() - a,
    {
        a += 1;
    }
    let mut b: usize = s.len();
    while b > a && s[b - 1].is_whitespace()
        invariant
            a <= b <= s.len(),
            back_whitespace(s@, a as int, s.len() as int) == back_whitespace(
                s@,
                a as int,
                b as int,
            ),
        decreases b,
    {
        b -= 1;
    }
    (a, b)
}

/// Whether `s`, without the white space around it, starts with `pat`.
pub fn trimmed_starts_with(s: &Vec<char>, pat: &Vec<char>) -> (r: bool)
    ensures
        r == pat@.is_prefix_of(trimmed(s@)),
{
    let (a, b) = trim_bounds(s);
    if b - a < pat.len() {
        return false;
    }
    let r = has_at(s, a, pat);
    assert(trimmed(s@).subrange(0, pat.len() as int) =~= s@.subrange(a as int, a + pat.len()));
    r
}

/// Whether `s`, without the white space around it, ends with `pat`.
pub fn trimmed_ends_with(s: &Vec<char>, pat: &Vec<char>) -> (r: bool)
    ensures
        r == pat@.is_suffix_of(trimmed(s@)),
{
    let (a, b) = trim_bounds(s);
    if b - a < pat.len() {
        return false;
    }
    let r = has_at(s, b - pat.len(), pat);
    assert(trimmed(s@).subrange(trimmed(s@).len() - pat.len(), trimmed(s@).len() as int)
        =~= s@.subrange(b - pat.len(), b as int));
    r
}

/// The position of the first line feed at or after `from`, or the length.
pub fn find_newline(s: &Vec<char>, from: usize) -> (k: usize)
    requires
        from <= s.len(),
    ensures
        k == first_newline(s@, from as int),
        from <= k <= s.len(),
{
    let mut k: usize = from;
    while k < s.len() && s[k] != '\n'
        invariant
            from <= k <= s.len(),
            first_newline(s@, from as int) == first_newline(s@, k as int),
        decreases s.len() - k,
    {
        k += 1;
    }
    k
}

/// The number of lines of `s`.
pub fn count_lines(s: &Vec<char>) -> (n: usize)
    ensures
        n == lines_of(s@).len(),
{
    let mut n: usize = 0;
    let mut i: usize = 0;
    assert(s@.take(0) =~= Seq::empty());
    while i < s.len()
        invariant
            i <= s.len(),
            n <= i,
            n == newlines(s@.take(i as int)),
        decreases s.len() - i,
    {
        assert(s@.take(i + 1).drop_last() =~= s@.take(i as int));
        if s[i] == '\n' {
            n += 1;
        }
        i += 1;
    }
    proof {
        assert(s@.take(s.len() as int) =~= s@);
        crate::normalize_laws::lemma_lines_count(s@);
        crate::normalize_laws::lemma_newlines_bound(s@);
    }
    if s.len() > 0 && s[s.len() - 1] != '\n' {
        n + 1
    } else {
        n
    }
}

/// The lines of `s`.
pub fn split_lines(s: &Vec<char>) -> (out: Vec<Vec<char>>)
    ensures
        rows(out@) == lines_of(s@),
{
    let mut out: Vec<Vec<char>> = Vec::new();
    let mut pos: usize = 0;
    while pos < s.len()
        invariant
            pos <= s.len(),
            lines_of(s@) == rows(out@) + lines_from(s@, pos as int),
        decreases s.len() - pos,
    {
        let k = find_newline(s, pos);
        let ghost before = rows(out@);
        if k >= s.len() {
            let line = copy_range(s, pos, s.len());
            out.push(line);
            assert(rows(out@) =~= before.push(line@));
            assert(lines_from(s@, s.len() as int) =~= Seq::empty());
            pos = s.len();
        } else {
            let end = if k > pos && s[k - 1] == '\r' {
                k - 1
            } else {
                k
            };
            let line = copy_range(s, pos, end);
            assert(line@ =~= strip_cr(s@.subrange(pos as int, k as int)));
            out.push(line);
            assert(rows(out@) =~= before.push(line@));
            pos = k + 1;
        }
    }
    assert(rows(out@) =~= rows(out@) + lines_from(s@, pos as int));
    out
}

} // verus!
