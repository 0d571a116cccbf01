//! Typographic rules for the lines that only a translation has.

use vstd::prelude::*;
use vstd::string::StringSliceAdditionalSpecFns;
use vstd::utf8::{encode_utf8, is_char_boundary};
use crate::matcher::{target_only_views, Line, LineView, TargetOnly, TargetOnlyView};

verus! {

/// A place in a line that breaks a rule: the bytes `start..end` of the line.
#[derive(Clone, Debug)]
pub struct LintError {
    pub kind: LintErrorKind,
    pub path: String,
    pub line: Line,
    pub start: usize,
    pub end: usize,
}

/// The rule that is broken.
#[derive(Clone, Copy, Debug, PartialEq, Eq, Structural)]
pub enum LintErrorKind {
    /// An emphasis that is not set off by spaces.
    EmphasisWithoutSpace,
    /// An emphasis that opens with one marker and closes with another.
    EmphasisMismatch,
    /// Half-width parentheses around text that is not all ASCII.
    HalfParenWithNonAscii,
    /// Full-width parentheses around text that is all ASCII.
    FullParenWithoutNonAscii,
}

/// The rules to check.
#[derive(Clone, Copy, Debug)]
pub struct Linter {
    pub enable_emphasis_check: bool,
    pub enable_half_paren_check: bool,
    pub enable_full_paren_check: bool,
}

/// What a [`LintError`] stands for.
pub struct LintErrorView {
    pub kind: LintErrorKind,
    pub path: Seq<char>,
    pub line: LineView,
    pub start: usize,
    pub end: usize,
}

impl View for LintError {
    type V = LintErrorView;

    open spec fn view(&self) -> LintErrorView {
        LintErrorView {
            kind: self.kind,
            path: self.path@,
            line: self.line@,
            start: self.start,
            end: self.end,
        }
    }
}

/// The place of the error is a piece of its line.
pub open spec fn well_placed(e: LintErrorView) -> bool {
    span_in(e.line.content, (e.start, e.end))
}

/// Every error is at a piece of its line.
pub open spec fn all_placed(s: Seq<LintErrorView>) -> bool {
    forall|i: int| 0 <= i < s.len() ==> well_placed(#[trigger] s[i])
}

/// The views of a sequence of errors.
pub open spec fn error_views(s: Seq<LintError>) -> Seq<LintErrorView> {
    s.map_values(|e: LintError| e@)
}

/// What building a regular expression from `pattern` and then searching
/// `text` with it gives, taken as one function of the two: the matches, one
/// after the other, each as the byte offsets of its start and end; `None` if
/// the expression is not a valid one.
pub uninterp spec fn regex_matches(pattern: Seq<char>, text: Seq<char>) -> Option<
    Seq<(usize, usize)>,
>;

/// What building a regular expression from `pattern` and then searching
/// `text` with it gives, taken as one function of the two: the matches, one
/// after the other, each with its groups. Group 0 is the whole match, and a
/// group that took no part is `None`. `None` if the expression is not a
/// valid one.
pub uninterp spec fn regex_captures(pattern: Seq<char>, text: Seq<char>) -> Option<
    Seq<Seq<Option<(usize, usize)>>>,
>;

/// The bytes `span` are a piece of the text: they start and end between two
/// characters of it.
pub open spec fn span_in(text: Seq<char>, span: (usize, usize)) -> bool {
    &&& span.0 <= span.1 <= encode_utf8(text).len()
    &&& is_char_boundary(encode_utf8(text), span.0 as int)
    &&& is_char_boundary(encode_utf8(text), span.1 as int)
}

/// Every group that took part is a piece of the text.
pub open spec fn groups_in(text: Seq<char>, groups: Seq<Option<(usize, usize)>>) -> bool {
    forall|g: int|
        0 <= g < groups.len() ==> ((#[trigger] groups[g]) matches Some(span) ==> span_in(
            text,
            span,
        ))
}

/// The groups of a sequence of matches.
pub open spec fn group_views(s: Seq<Vec<Option<(usize, usize)>>>) -> Seq<
    Seq<Option<(usize, usize)>>,
> {
    s.map_values(|g: Vec<Option<(usize, usize)>>| g@)
}

/// `regex::Regex::new` and, on the expression it built, `Regex::find_iter`:
/// the two calls in a row are one function of the pattern and the text, and
/// the matches are its value. As the crate documents of a match, its start
/// is not after its end, and both fall between two characters of the text.
#[verifier::external_body]
pub(crate) fn find_all(pattern: &str, text: &str) -> (r: Option<Vec<(usize, usize)>>)
    ensures
        regex_matches(pattern@, text@) == match r {
            Some(v) => Some(v@),
            None => None,
        },
        r matches Some(v) ==> forall|i: int| 0 <= i < v@.len() ==> span_in(text@, #[trigger] v@[i]),
{
    match regex::Regex::new(pattern) {
        Ok(re) => Some(re.find_iter(text).map(|m| (m.start(), m.end())).collect()),
        Err(_) => None,
    }
}

/// `regex::Regex::new` and, on the expression it built,
/// `Regex::captures_iter`: the two calls in a row are one function of the
/// pattern and the text, and the matches with their groups are its value. As
/// the crate documents of a match, the start of a group is not after its end,
/// and both fall between two characters of the text.
#[verifier::external_body]
pub(crate) fn capture_all(pattern: &str, text: &str) -> (r: Option<
    Vec<Vec<Option<(usize, usize)>>>,
>)
    ensures
        regex_captures(pattern@, text@) == match r {
            Some(v) => Some(group_views(v@)),
            None => None,
        },
        r matches Some(v) ==> forall|i: int|
            0 <= i < v@.len() ==> groups_in(text@, (#[trigger] v@[i])@),
{
    match regex::Regex::new(pattern) {
        Ok(re) => Some(
            re.captures_iter(text).map(
                |c| c.iter().map(|g| g.map(|m| (m.start(), m.end()))).collect(),
            ).collect(),
        ),
        Err(_) => None,
    }
}

/// An emphasis: one or two asterisks, text that does not start with white
/// space, one or two asterisks.
pub open spec fn emphasis_pattern() -> Seq<char> {
    "\\*\\*?[^*\\s][^*]*\\*\\*?"@
}

/// Text in half-width parentheses; group 1 is the text.
pub open spec fn half_paren_pattern() -> Seq<char> {
    "\\(([^)]*)\\)"@
}

/// Text in full-width parentheses; group 1 is the text.
pub open spec fn full_paren_pattern() -> Seq<char> {
    "\u{ff08}([^\u{ff09}]*)\u{ff09}"@
}

/// The byte of an asterisk.
pub const STAR: u8 = 0x2a;

/// The byte of a space.
pub const SPACE: u8 = 0x20;

/// The bytes `start..end` begin with two asterisks.
pub open spec fn starts_double(b: Seq<u8>, start: int, end: int) -> bool {
    end - start >= 2 && b[start] == STAR && b[start + 1] == STAR
}

/// The bytes `start..end` end with two asterisks.
pub open spec fn ends_double(b: Seq<u8>, start: int, end: int) -> bool {
    end - start >= 2 && b[end - 2] == STAR && b[end - 1] == STAR
}

/// Nothing or a space stands before `start`, and nothing or a space after
/// `end`.
pub open spec fn spaced(b: Seq<u8>, start: int, end: int) -> bool {
    (start == 0 || b[start - 1] == SPACE) && (end == b.len() || b[end] == SPACE)
}

/// All of the bytes `start..end` are ASCII.
pub open spec fn ascii_between(b: Seq<u8>, start: int, end: int) -> bool {
    forall|k: int| start <= k < end ==> #[trigger] b[k] < 128
}

/// What is wrong with a place in a line.
#[derive(Clone, Copy, Debug, PartialEq, Eq, Structural)]
pub struct Finding {
    pub kind: LintErrorKind,
    pub start: usize,
    pub end: usize,
}

/// What is wrong with the emphasis at `span`, if anything. An emphasis whose
/// two markers differ is a mismatch; else it must be set off by spaces. A
/// span that does not lie in the line is passed over.
pub open spec fn emphasis_finding(b: Seq<u8>, span: (usize, usize)) -> Option<Finding> {
    let (start, end) = span;
    if !(start <= end <= b.len()) {
        None
    } else if starts_double(b, start as int, end as int) != ends_double(
        b,
        start as int,
        end as int,
    ) {
        Some(Finding { kind: LintErrorKind::EmphasisMismatch, start, end })
    } else if !spaced(b, start as int, end as int) {
        Some(Finding { kind: LintErrorKind::EmphasisWithoutSpace, start, end })
    } else {
        None
    }
}

/// The whole match and its first group, if both are there and lie in the
/// line.
pub open spec fn paren_spans(b: Seq<u8>, groups: Seq<Option<(usize, usize)>>) -> Option<
    ((usize, usize), (usize, usize)),
> {
    if groups.len() >= 2 {
        match (groups[0], groups[1]) {
            (Some(whole), Some(inner)) if whole.0 <= whole.1 <= b.len() && inner.0 <= inner.1
                <= b.len() => Some((whole, inner)),
            _ => None,
        }
    } else {
        None
    }
}

/// What is wrong with the half-width parentheses, if anything: the text in
/// them is not all ASCII.
pub open spec fn half_paren_finding(b: Seq<u8>, groups: Seq<Option<(usize, usize)>>) -> Option<
    Finding,
> {
    match paren_spans(b, groups) {
        Some((whole, inner)) if !ascii_between(b, inner.0 as int, inner.1 as int) => Some(
            Finding { kind: LintErrorKind::HalfParenWithNonAscii, start: whole.0, end: whole.1 },
        ),
        _ => None,
    }
}

/// What is wrong with the full-width parentheses, if anything: the text in
/// them is all ASCII.
pub open spec fn full_paren_finding(b: Seq<u8>, groups: Seq<Option<(usize, usize)>>) -> Option<
    Finding,
> {
    match paren_spans(b, groups) {
        Some((whole, inner)) if ascii_between(b, inner.0 as int, inner.1 as int) => Some(
            Finding {
                kind: LintErrorKind::FullParenWithoutNonAscii,
                start: whole.0,
                end: whole.1,
            },
        ),
        _ => None,
    }
}

/// The error that reports `f` in `line` of the file at `path`.
pub open spec fn reported(f: Finding, path: Seq<char>, line: LineView) -> LintErrorView {
    LintErrorView { kind: f.kind, path, line, start: f.start, end: f.end }
}

/// The errors for the findings among the first `n` of `found`.
pub open spec fn reported_all(found: Seq<Option<Finding>>, n: int, path: Seq<char>, line: LineView)
    -> Seq<LintErrorView>
    decreases n,
{
    if n <= 0 {
        Seq::empty()
    } else {
        let before = reported_all(found, n - 1, path, line);
        match found[n - 1] {
            Some(f) => before.push(reported(f, path, line)),
            None => before,
        }
    }
}

/// The bytes of a line.
pub open spec fn bytes_of(line: LineView) -> Seq<u8> {
    encode_utf8(line.content)
}

/// The emphases of a line that break a rule.
pub open spec fn emphasis_errors(path: Seq<char>, line: LineView) -> Seq<LintErrorView> {
    match regex_matches(emphasis_pattern(), line.content) {
        Some(spans) => reported_all(
            spans.map_values(|s: (usize, usize)| emphasis_finding(bytes_of(line), s)),
            spans.len() as int,
            path,
            line,
        ),
        None => Seq::empty(),
    }
}

/// The half-width parentheses of a line that break the rule.
pub open spec fn half_paren_errors(path: Seq<char>, line: LineView) -> Seq<LintErrorView> {
    match regex_captures(half_paren_pattern(), line.content) {
        Some(caps) => reported_all(
            caps.map_values(
                |g: Seq<Option<(usize, usize)>>| half_paren_finding(bytes_of(line), g),
            ),
            caps.len() as int,
            path,
            line,
        ),
        None => Seq::empty(),
    }
}

/// The full-width parentheses of a line that break the rule.
pub open spec fn full_paren_errors(path: Seq<char>, line: LineView) -> Seq<LintErrorView> {
    match regex_captures(full_paren_pattern(), line.content) {
        Some(caps) => reported_all(
            caps.map_values(
                |g: Seq<Option<(usize, usize)>>| full_paren_finding(bytes_of(line), g),
            ),
            caps.len() as int,
            path,
            line,
        ),
        None => Seq::empty(),
    }
}

/// The errors of one line, by the rules that are enabled.
pub open spec fn line_errors(l: Linter, path: Seq<char>, line: LineView) -> Seq<LintErrorView> {
    (if l.enable_emphasis_check {
        emphasis_errors(path, line)
    } else {
        Seq::empty()
    }) + (if l.enable_half_paren_check {
        half_paren_errors(path, line)
    } else {
        Seq::empty()
    }) + (if l.enable_full_paren_check {
        full_paren_errors(path, line)
    } else {
        Seq::empty()
    })
}

/// The errors of the first `n` lines of a file.
pub open spec fn file_errors(l: Linter, file: TargetOnlyView, n: int) -> Seq<LintErrorView>
    decreases n,
{
    if n <= 0 {
        Seq::empty()
    } else {
        file_errors(l, file, n - 1) + line_errors(l, file.target_path, file.lines[n - 1])
    }
}

/// The errors of the first `n` files.
pub open spec fn tree_errors(l: Linter, files: Seq<TargetOnlyView>, n: int) -> Seq<LintErrorView>
    decreases n,
{
    if n <= 0 {
        Seq::empty()
    } else {
        tree_errors(l, files, n - 1) + file_errors(
            l,
            files[n - 1],
            files[n - 1].lines.len() as int,
        )
    }
}

/// Whether all of the bytes `start..end` are ASCII.
fn is_ascii_between(b: &[u8], start: usize, end: usize) -> (r: bool)
    requires
        start <= end <= b@.len(),
    ensures
        r == ascii_between(b@, start as int, end as int),
{
    let mut k: usize = start;
    while k < end
        invariant
            start <= k <= end <= b@.len(),
            ascii_between(b@, start as int, k as int),
        decreases end - k,
    {
        if b[k] >= 128 {
            return false;
        }
        k += 1;
    }
    true
}

/// What is wrong with the emphasis that takes the bytes `span` of the line
/// `b`, if anything.
pub fn find_emphasis(b: &[u8], span: (usize, usize)) -> (r: Option<Finding>)
    ensures
        r == emphasis_finding(b@, span),
{
    let (start, end) = span;
    if !(start <= end && end <= b.len()) {
        return None;
    }
    let long = end - start >= 2;
    let opens = long && b[start] == STAR && b[start + 1] == STAR;
    let closes = long && b[end - 2] == STAR && b[end - 1] == STAR;
    if opens != closes {
        Some(Finding { kind: LintErrorKind::EmphasisMismatch, start, end })
    } else {
        let before = start == 0 || b[start - 1] == SPACE;
        let after = end == b.len() || b[end] == SPACE;
        if !(before && after) {
            Some(Finding { kind: LintErrorKind::EmphasisWithoutSpace, start, end })
        } else {
            None
        }
    }
}

/// The whole match and its first group, if both are there and lie in the
/// line.
fn spans_of(b: &[u8], groups: &Vec<Option<(usize, usize)>>) -> (r: Option<
    ((usize, usize), (usize, usize)),
>)
    ensures
        r == paren_spans(b@, groups@),
{
    if groups.len() < 2 {
        return None;
    }
    match (groups[0], groups[1]) {
        (Some(whole), Some(inner)) => {
            if whole.0 <= whole.1 && whole.1 <= b.len() && inner.0 <= inner.1 && inner.1
                <= b.len() {
                Some((whole, inner))
            } else {
                None
            }
        },
        _ => None,
    }
}

/// What is wrong with the parentheses whose groups are `groups`, in the line
/// `b`, if anything: with `want_ascii` the text in them must be all ASCII,
/// else it must not.
pub fn find_paren(b: &[u8], groups: &Vec<Option<(usize, usize)>>, want_ascii: bool) -> (r: Option<
    Finding,
>)
    ensures
        r == if want_ascii {
            half_paren_finding(b@, groups@)
        } else {
            full_paren_finding(b@, groups@)
        },
{
    match spans_of(b, groups) {
        Some((whole, inner)) => {
            let ascii = is_ascii_between(b, inner.0, inner.1);
            if want_ascii && !ascii {
                Some(
                    Finding {
                        kind: LintErrorKind::HalfParenWithNonAscii,
                        start: whole.0,
                        end: whole.1,
                    },
                )
            } else if !want_ascii && ascii {
                Some(
                    Finding {
                        kind: LintErrorKind::FullParenWithoutNonAscii,
                        start: whole.0,
                        end: whole.1,
                    },
                )
            } else {
                None
            }
        },
        None => None,
    }
}

/// Appends the error that reports `f`.
fn report(out: &mut Vec<LintError>, f: Finding, line: &Line, path: &str)
    ensures
        error_views(final(out)@) == error_views(old(out)@).push(reported(f, path@, line@)),
        all_placed(error_views(old(out)@)) && span_in(line@.content, (f.start, f.end))
            ==> all_placed(error_views(final(out)@)),
{
    let e = LintError {
        kind: f.kind,
        path: path.to_owned(),
        line: line.clone(),
        start: f.start,
        end: f.end,
    };
    out.push(e);
    assert(error_views(out@) =~= error_views(old(out)@).push(e@));
    proof {
        if all_placed(error_views(old(out)@)) && span_in(line@.content, (f.start, f.end)) {
            assert forall|i: int| 0 <= i < error_views(out@).len() implies well_placed(
                #[trigger] error_views(out@)[i],
            ) by {
                if i < old(out)@.len() {
                    assert(error_views(out@)[i] == error_views(old(out)@)[i]);
                }
            }
        }
    }
}

impl Linter {
    /// Checks every line of every file by the rules that are enabled.
    /// Returns the errors file by file, line by line, rule by rule. The place
    /// of every error is a piece of its line.
    pub fn check(&self, target_onlys: Vec<TargetOnly>) -> (ret: Vec<LintError>)
        ensures
            error_views(ret@) == tree_errors(
                *self,
                target_only_views(target_onlys@),
                target_onlys@.len() as int,
            ),
            all_placed(error_views(ret@)),
    {
        let ghost files = target_only_views(target_onlys@);
        let mut ret: Vec<LintError> = Vec::new();
        let mut i: usize = 0;
        assert(error_views(ret@) =~= Seq::empty());
        while i < target_onlys.len()
            invariant
                i <= target_onlys.len(),
                files == target_only_views(target_onlys@),
                error_views(ret@) == tree_errors(*self, files, i as int),
                all_placed(error_views(ret@)),
            decreases target_onlys.len() - i,
        {
            let file = &target_onlys[i];
            assert(files[i as int] == file@);
            let ghost before = error_views(ret@);
            let mut j: usize = 0;
            assert(error_views(ret@) =~= before + file_errors(*self, file@, 0));
            while j < file.lines.len()
                invariant
                    j <= file.lines.len(),
                    error_views(ret@) == before + file_errors(*self, file@, j as int),
                    all_placed(error_views(ret@)),
                decreases file.lines.len() - j,
            {
                let line = &file.lines[j];
                assert(file@.lines[j as int] == line@);
                let ghost sofar = error_views(ret@);
                let path = file.target_path.as_str();
                if self.enable_emphasis_check {
                    self.check_emphasis(&mut ret, line, path);
                }
                if self.enable_half_paren_check {
                    self.check_half_paren(&mut ret, line, path);
                }
                if self.enable_full_paren_check {
                    self.check_full_paren(&mut ret, line, path);
                }
                assert(error_views(ret@) =~= sofar + line_errors(*self, path@, line@));
                j += 1;
            }
            i += 1;
        }
        ret
    }

    /// Appends the emphases of `line` that break a rule.
    pub fn check_emphasis(&self, out: &mut Vec<LintError>, line: &Line, path: &str)
        ensures
            error_views(final(out)@) == error_views(old(out)@) + emphasis_errors(path@, line@),
            all_placed(error_views(old(out)@)) ==> all_placed(error_views(final(out)@)),
    {
        let b = line.content.as_str().as_bytes();
        match find_all("\\*\\*?[^*\\s][^*]*\\*\\*?", line.content.as_str()) {
            Some(spans) => {
                let ghost found = spans@.map_values(
                    |s: (usize, usize)| emphasis_finding(bytes_of(line@), s),
                );
                let mut k: usize = 0;
                assert(error_views(out@) =~= error_views(old(out)@) + reported_all(
                    found,
                    0,
                    path@,
                    line@,
                ));
                while k < spans.len()
                    invariant
                        k <= spans.len(),
                        b@ == bytes_of(line@),
                        forall|q: int| 0 <= q < spans@.len() ==> span_in(line@.content, #[trigger] spans@[q]),
                        all_placed(error_views(old(out)@)) ==> all_placed(error_views(out@)),
                        found == spans@.map_values(
                            |s: (usize, usize)| emphasis_finding(bytes_of(line@), s),
                        ),
                        error_views(out@) == error_views(old(out)@) + reported_all(
                            found,
                            k as int,
                            path@,
                            line@,
                        ),
                    decreases spans.len() - k,
                {
                    match find_emphasis(b, spans[k]) {
                        Some(f) => {
                            assert(span_in(line@.content, spans@[k as int]));
                            report(out, f, line, path);
                        },
                        None => {},
                    }
                    k += 1;
                    assert(error_views(out@) =~= error_views(old(out)@) + reported_all(
                        found,
                        k as int,
                        path@,
                        line@,
                    ));
                }
            },
            None => {
                assert(error_views(out@) =~= error_views(old(out)@) + Seq::empty());
            },
        }
    }

    /// Appends the half-width parentheses of `line` that break the rule.
    pub fn check_half_paren(&self, out: &mut Vec<LintError>, line: &Line, path: &str)
        ensures
            error_views(final(out)@) == error_views(old(out)@) + half_paren_errors(path@, line@),
            all_placed(error_views(old(out)@)) ==> all_placed(error_views(final(out)@)),
    {
        let b = line.content.as_str().as_bytes();
        match capture_all("\\(([^)]*)\\)", line.content.as_str()) {
            Some(caps) => {
                let ghost found = group_views(caps@).map_values(
                    |g: Seq<Option<(usize, usize)>>| half_paren_finding(bytes_of(line@), g),
                );
                let mut k: usize = 0;
                assert(error_views(out@) =~= error_views(old(out)@) + reported_all(
                    found,
                    0,
                    path@,
                    line@,
                ));
                while k < caps.len()
                    invariant
                        k <= caps.len(),
                        b@ == bytes_of(line@),
                        forall|q: int| 0 <= q < caps@.len() ==> groups_in(line@.content, (#[trigger] caps@[q])@),
                        all_placed(error_views(old(out)@)) ==> all_placed(error_views(out@)),
                        found == group_views(caps@).map_values(
                            |g: Seq<Option<(usize, usize)>>| half_paren_finding(
                                bytes_of(line@),
                                g,
                            ),
                        ),
                        error_views(out@) == error_views(old(out)@) + reported_all(
                            found,
                            k as int,
                            path@,
                            line@,
                        ),
                    decreases caps.len() - k,
                {
                    assert(group_views(caps@)[k as int] == caps@[k as int]@);
                    match find_paren(b, &caps[k], true) {
                        Some(f) => {
                            assert(groups_in(line@.content, caps@[k as int]@));
                            assert(caps@[k as int]@[0] matches Some(whole) && span_in(line@.content, whole));
                            report(out, f, line, path);
                        },
                        None => {},
                    }
                    k += 1;
                    assert(error_views(out@) =~= error_views(old(out)@) + reported_all(
                        found,
                        k as int,
                        path@,
                        line@,
                    ));
                }
            },
            None => {
                assert(error_views(out@) =~= error_views(old(out)@) + Seq::empty());
            },
        }
    }

    /// Appends the full-width parentheses of `line` that break the rule.
    pub fn check_full_paren(&self, out: &mut Vec<LintError>, line: &Line, path: &str)
        ensures
            error_views(final(out)@) == error_views(old(out)@) + full_paren_errors(path@, line@),
            all_placed(error_views(old(out)@)) ==> all_placed(error_views(final(out)@)),
    {
        let b = line.content.as_str().as_bytes();
        match capture_all("\u{ff08}([^\u{ff09}]*)\u{ff09}", line.content.as_str()) {
            Some(caps) => {
                let ghost found = group_views(caps@).map_values(
                    |g: Seq<Option<(usize, usize)>>| full_paren_finding(bytes_of(line@), g),
                );
                let mut k: usize = 0;
                assert(error_views(out@) =~= error_views(old(out)@) + reported_all(
                    found,
                    0,
                    path@,
                    line@,
                ));
                while k < caps.len()
                    invariant
                        k <= caps.len(),
                        b@ == bytes_of(line@),
                        forall|q: int| 0 <= q < caps@.len() ==> groups_in(line@.content, (#[trigger] caps@[q])@),
                        all_placed(error_views(old(out)@)) ==> all_placed(error_views(out@)),
                        found == group_views(caps@).map_values(
                            |g: Seq<Option<(usize, usize)>>| full_paren_finding(
                                bytes_of(line@),
                                g,
                            ),
                        ),
                        error_views(out@) == error_views(old(out)@) + reported_all(
                            found,
                            k as int,
                            path@,
                            line@,
                        ),
                    decreases caps.len() - k,
                {
                    assert(group_views(caps@)[k as int] == caps@[k as int]@);
                    match find_paren(b, &caps[k], false) {
                        Some(f) => {
                            assert(groups_in(line@.content, caps@[k as int]@));
                            assert(caps@[k as int]@[0] matches Some(whole) && span_in(line@.content, whole));
                            report(out, f, line, path);
                        },
                        None => {},
                    }
                    k += 1;
                    assert(error_views(out@) =~= error_views(old(out)@) + reported_all(
                        found,
                        k as int,
                        path@,
                        line@,
                    ));
                }
            },
            None => {
                assert(error_views(out@) =~= error_views(old(out)@) + Seq::empty());
            },
        }
    }
}

} // verus!
