//! Lining up the lines of a source text and of its translation, and cutting
//! the result into blocks of lines that found no partner.

use vstd::prelude::*;
use crate::align_laws::{blocks_placed, placed};
use crate::diffs_laws::{covered, none_left};
use crate::diffs::{
    diff_fits, fits, item_view, item_views, line_diff, lines_diff, script_lines, DiffItem,
};
use crate::matcher::{lemma_line_views_push, line_views, Line, LineView, Matcher};
use crate::text::{
    contains, count_lines, lines_of, occurs_in, to_chars, trimmed, trimmed_ends_with,
    trimmed_starts_with,
};

verus! {

/// The line, trimmed, starts with the token that ends an HTML comment.
pub open spec fn closes_comment(c: Seq<char>) -> bool {
    "-->"@.is_prefix_of(trimmed(c))
}

/// The line, trimmed, starts with the token that begins an HTML comment.
pub open spec fn opens_comment(c: Seq<char>) -> bool {
    "<!--"@.is_prefix_of(trimmed(c))
}

/// The line, trimmed, ends with a fence.
pub open spec fn closes_fence(c: Seq<char>) -> bool {
    "```"@.is_suffix_of(trimmed(c))
}

/// The line, trimmed, starts with a fence that is tagged as code.
pub open spec fn opens_code(c: Seq<char>) -> bool {
    "```rust"@.is_prefix_of(trimmed(c))
}

/// The line holds the marker of a comment in code.
pub open spec fn has_comment_marker(c: Seq<char>) -> bool {
    occurs_in("//"@, c)
}

/// Where the translation stands with respect to HTML comments and fenced
/// code blocks.
#[derive(Clone, Copy, Debug)]
pub struct FenceState {
    /// Inside an HTML comment.
    pub html_comment: bool,
    /// Inside a fenced code block.
    pub code: bool,
}

impl FenceState {
    /// The state in which a line that only the translation has is looked at:
    /// a line that closes a comment or a fence is already outside of it.
    pub open spec fn before_right(self, c: Seq<char>) -> FenceState {
        FenceState {
            html_comment: self.html_comment && !closes_comment(c),
            code: self.code && !closes_fence(c),
        }
    }

    /// The state after a line that only the translation has: a line that
    /// opens a comment or a code block puts what follows inside of it.
    pub open spec fn after_right(self, c: Seq<char>) -> FenceState {
        let s = self.before_right(c);
        FenceState {
            html_comment: s.html_comment || opens_comment(c),
            code: s.code || opens_code(c),
        }
    }

    /// The state after a line that both texts have: it can only close a
    /// fence.
    pub open spec fn after_both(self, c: Seq<char>) -> FenceState {
        FenceState { html_comment: self.html_comment, code: self.code && !closes_fence(c) }
    }
}

/// A run of lines that found no partner: the source lines, and the lines
/// of the translation that stand between the same two agreed lines.
pub struct BlockView {
    pub lefts: Seq<LineView>,
    pub rights: Seq<LineView>,
}

/// What a block stands for.
pub open spec fn block_view(b: (Vec<Line>, Vec<Line>)) -> BlockView {
    BlockView { lefts: line_views(b.0@), rights: line_views(b.1@) }
}

/// What a sequence of blocks stands for.
pub open spec fn block_views(s: Seq<(Vec<Line>, Vec<Line>)>) -> Seq<BlockView> {
    s.map_values(|b: (Vec<Line>, Vec<Line>)| block_view(b))
}

/// The marked lines among `s`, in their order.
pub open spec fn flagged_only(s: Seq<LineView>) -> Seq<LineView>
    decreases s.len(),
{
    if s.len() == 0 {
        Seq::empty()
    } else if s.last().flagged() {
        flagged_only(s.drop_last()).push(s.last())
    } else {
        flagged_only(s.drop_last())
    }
}

/// The state of a pass over an edit script.
pub struct AlignState {
    /// The number of source lines seen.
    pub source_line: nat,
    /// The number of lines of the translation seen.
    pub target_line: nat,
    /// `source_line` at the last line that both texts have.
    pub last_both_source: nat,
    /// `target_line` at the last line that both texts have.
    pub last_both_target: nat,
    pub fence: FenceState,
    /// The source lines since the last agreed line.
    pub lefts: Seq<LineView>,
    /// The lines of the translation since the last agreed line.
    pub rights: Seq<LineView>,
    /// The blocks cut so far.
    pub blocks: Seq<BlockView>,
    /// Every line that only the translation has.
    pub right_only: Seq<LineView>,
}

impl AlignState {
    /// The state before the first line.
    pub open spec fn start() -> AlignState {
        AlignState {
            source_line: 0,
            target_line: 0,
            last_both_source: 0,
            last_both_target: 0,
            fence: FenceState { html_comment: false, code: false },
            lefts: Seq::empty(),
            rights: Seq::empty(),
            blocks: Seq::empty(),
            right_only: Seq::empty(),
        }
    }

    /// Closes the current run. With source lines in it the run becomes a
    /// block, with all its lines of the translation. Without any, only the
    /// marked lines of the translation make a block, if there are some.
    pub open spec fn flush(self) -> AlignState {
        let blocks = if self.lefts.len() > 0 {
            self.blocks.push(BlockView { lefts: self.lefts, rights: self.rights })
        } else if flagged_only(self.rights).len() > 0 {
            self.blocks.push(BlockView { lefts: self.lefts, rights: flagged_only(self.rights) })
        } else {
            self.blocks
        };
        AlignState { lefts: Seq::empty(), rights: Seq::empty(), blocks, ..self }
    }

    /// A line that only the source has.
    pub open spec fn on_left(self, c: Seq<char>) -> AlignState {
        let line = LineView {
            number: self.source_line + 1,
            content: c,
            last_both: self.last_both_target,
            html_comment: false,
            code_not_comment: false,
        };
        AlignState { source_line: self.source_line + 1, lefts: self.lefts.push(line), ..self }
    }

    /// A line that only the translation has.
    pub open spec fn on_right(self, c: Seq<char>) -> AlignState {
        let now = self.fence.before_right(c);
        let line = LineView {
            number: self.target_line + 1,
            content: c,
            last_both: self.last_both_source,
            html_comment: now.html_comment,
            code_not_comment: now.code && !has_comment_marker(c),
        };
        AlignState {
            target_line: self.target_line + 1,
            fence: self.fence.after_right(c),
            rights: self.rights.push(line),
            right_only: self.right_only.push(line),
            ..self
        }
    }

    /// A line that both texts have.
    pub open spec fn on_both(self, c: Seq<char>) -> AlignState {
        AlignState {
            source_line: self.source_line + 1,
            target_line: self.target_line + 1,
            last_both_source: self.source_line + 1,
            last_both_target: self.target_line + 1,
            fence: self.fence.after_both(c),
            ..self
        }.flush()
    }

    /// The state after one more step of the script.
    pub open spec fn step(self, item: DiffItem<Seq<char>>) -> AlignState {
        match item {
            DiffItem::Left(c) => self.on_left(c),
            DiffItem::Right(c) => self.on_right(c),
            DiffItem::Both(c, _) => self.on_both(c),
        }
    }

    /// The state after the whole script.
    pub open spec fn run(items: Seq<DiffItem<Seq<char>>>) -> AlignState
        decreases items.len(),
    {
        if items.len() == 0 {
            AlignState::start()
        } else {
            AlignState::run(items.drop_last()).step(items.last())
        }
    }
}

/// The blocks of an edit script, and all the lines that only its right side
/// has.
pub open spec fn aligned(items: Seq<DiffItem<Seq<char>>>) -> (Seq<BlockView>, Seq<LineView>) {
    let end = AlignState::run(items).flush();
    (end.blocks, end.right_only)
}

/// The tokens that the pass looks for.
struct Markers {
    comment_end: Vec<char>,
    comment_begin: Vec<char>,
    fence: Vec<char>,
    code_fence: Vec<char>,
    code_comment: Vec<char>,
}

impl Markers {
    spec fn wf(&self) -> bool {
        &&& self.comment_end@ == "-->"@
        &&& self.comment_begin@ == "<!--"@
        &&& self.fence@ == "```"@
        &&& self.code_fence@ == "```rust"@
        &&& self.code_comment@ == "//"@
    }

    fn new() -> (m: Markers)
        ensures
            m.wf(),
    {
        Markers {
            comment_end: to_chars("-->"),
            comment_begin: to_chars("<!--"),
            fence: to_chars("```"),
            code_fence: to_chars("```rust"),
            code_comment: to_chars("//"),
        }
    }
}

/// The pass over an edit script, as it runs.
struct Aligner {
    source_line: usize,
    target_line: usize,
    last_both_source: usize,
    last_both_target: usize,
    fence: FenceState,
    lefts: Vec<Line>,
    rights: Vec<Line>,
    blocks: Vec<(Vec<Line>, Vec<Line>)>,
    right_only: Vec<Line>,
}

impl View for Aligner {
    type V = AlignState;

    closed spec fn view(&self) -> AlignState {
        AlignState {
            source_line: self.source_line as nat,
            target_line: self.target_line as nat,
            last_both_source: self.last_both_source as nat,
            last_both_target: self.last_both_target as nat,
            fence: self.fence,
            lefts: line_views(self.lefts@),
            rights: line_views(self.rights@),
            blocks: block_views(self.blocks@),
            right_only: line_views(self.right_only@),
        }
    }
}

/// The marked lines among `v`, in their order.
pub fn keep_flagged(v: &Vec<Line>) -> (r: Vec<Line>)
    ensures
        line_views(r@) == flagged_only(line_views(v@)),
{
    let mut r: Vec<Line> = Vec::new();
    let mut i: usize = 0;
    assert(line_views(r@) =~= flagged_only(line_views(v@.take(0))));
    while i < v.len()
        invariant
            i <= v.len(),
            line_views(r@) == flagged_only(line_views(v@.take(i as int))),
        decreases v.len() - i,
    {
        proof {
            let next = line_views(v@.take(i + 1));
            assert(next.drop_last() =~= line_views(v@.take(i as int)));
            assert(next.last() == v@[i as int]@);
        }
        if v[i].html_comment || v[i].code_not_comment {
            proof {
                lemma_line_views_push(r@, v@[i as int]);
            }
            r.push(v[i].clone());
        }
        i += 1;
    }
    assert(v@.take(v.len() as int) == v@);
    r
}

impl Aligner {
    fn new() -> (a: Aligner)
        ensures
            a@ == AlignState::start(),
    {
        let a = Aligner {
            source_line: 0,
            target_line: 0,
            last_both_source: 0,
            last_both_target: 0,
            fence: FenceState { html_comment: false, code: false },
            lefts: Vec::new(),
            rights: Vec::new(),
            blocks: Vec::new(),
            right_only: Vec::new(),
        };
        assert(a@.lefts =~= Seq::empty());
        assert(a@.rights =~= Seq::empty());
        assert(a@.blocks =~= Seq::empty());
        assert(a@.right_only =~= Seq::empty());
        a
    }

    fn flush(&mut self)
        ensures
            final(self)@ == old(self)@.flush(),
    {
        let mut lefts: Vec<Line> = Vec::new();
        let mut rights: Vec<Line> = Vec::new();
        core::mem::swap(&mut self.lefts, &mut lefts);
        core::mem::swap(&mut self.rights, &mut rights);
        assert(line_views(self.lefts@) =~= Seq::empty());
        assert(line_views(self.rights@) =~= Seq::empty());
        let ghost before = self.blocks@;
        if lefts.len() > 0 {
            self.blocks.push((lefts, rights));
            assert(block_views(self.blocks@) =~= block_views(before).push(
                BlockView { lefts: old(self)@.lefts, rights: old(self)@.rights },
            ));
        } else {
            let kept = keep_flagged(&rights);
            if kept.len() > 0 {
                self.blocks.push((lefts, kept));
                assert(block_views(self.blocks@) =~= block_views(before).push(
                    BlockView { lefts: old(self)@.lefts, rights: flagged_only(old(self)@.rights) },
                ));
            }
        }
    }

    fn on_left(&mut self, content: &String)
        requires
            old(self).source_line < usize::MAX,
        ensures
            final(self)@ == old(self)@.on_left(content@),
    {
        self.source_line = self.source_line + 1;
        let line = Line {
            number: self.source_line,
            content: content.clone(),
            last_both: self.last_both_target,
            html_comment: false,
            code_not_comment: false,
        };
        proof {
            lemma_line_views_push(self.lefts@, line);
        }
        self.lefts.push(line);
    }

    fn on_right(&mut self, content: &String, marks: &Markers)
        requires
            old(self).target_line < usize::MAX,
            marks.wf(),
        ensures
            final(self)@ == old(self)@.on_right(content@),
    {
        let c = to_chars(content.as_str());
        if trimmed_starts_with(&c, &marks.comment_end) {
            self.fence.html_comment = false;
        }
        if trimmed_ends_with(&c, &marks.fence) {
            self.fence.code = false;
        }
        self.target_line = self.target_line + 1;
        let line = Line {
            number: self.target_line,
            content: content.clone(),
            last_both: self.last_both_source,
            html_comment: self.fence.html_comment,
            code_not_comment: self.fence.code && !contains(&c, &marks.code_comment),
        };
        let copy = line.clone();
        proof {
            lemma_line_views_push(self.rights@, line);
            lemma_line_views_push(self.right_only@, copy);
        }
        self.right_only.push(copy);
        self.rights.push(line);
        if trimmed_starts_with(&c, &marks.comment_begin) {
            self.fence.html_comment = true;
        }
        if trimmed_starts_with(&c, &marks.code_fence) {
            self.fence.code = true;
        }
    }

    fn on_both(&mut self, content: &String, marks: &Markers)
        requires
            old(self).source_line < usize::MAX,
            old(self).target_line < usize::MAX,
            marks.wf(),
        ensures
            final(self)@ == old(self)@.on_both(content@),
    {
        let c = to_chars(content.as_str());
        if self.fence.code && trimmed_ends_with(&c, &marks.fence) {
            self.fence.code = false;
        }
        self.source_line = self.source_line + 1;
        self.target_line = self.target_line + 1;
        self.last_both_source = self.source_line;
        self.last_both_target = self.target_line;
        self.flush();
    }
}

/// Cuts an edit script over lines into blocks.
///
/// Each line gets its number in its own file and the number of the last
/// agreed line of the other file. A line of the translation is marked while
/// the pass is inside an HTML comment, or inside a code block if the line
/// holds no comment marker. Returns the blocks, and every line that only the
/// translation has.
pub fn align(diff: &Vec<DiffItem<String>>) -> (r: (Vec<(Vec<Line>, Vec<Line>)>, Vec<Line>))
    ensures
        block_views(r.0@) == aligned(item_views(diff@)).0,
        line_views(r.1@) == aligned(item_views(diff@)).1,
{
    let marks = Markers::new();
    let mut a = Aligner::new();
    let mut i: usize = 0;
    assert(item_views(diff@).take(0) =~= Seq::empty());
    while i < diff.len()
        invariant
            i <= diff.len(),
            marks.wf(),
            a.source_line <= i,
            a.target_line <= i,
            a@ == AlignState::run(item_views(diff@).take(i as int)),
        decreases diff.len() - i,
    {
        proof {
            let next = item_views(diff@).take(i + 1);
            assert(next.drop_last() =~= item_views(diff@).take(i as int));
            assert(next.last() == item_view(diff@[i as int]));
        }
        match &diff[i] {
            DiffItem::Left(x) => a.on_left(x),
            DiffItem::Right(y) => a.on_right(y, &marks),
            DiffItem::Both(x, _) => a.on_both(x, &marks),
        }
        i += 1;
    }
    assert(item_views(diff@).take(diff.len() as int) =~= item_views(diff@));
    a.flush();
    (a.blocks, a.right_only)
}

impl Matcher {
    /// Lines up the lines of `source` and `target` and cuts the result into
    /// blocks, if the texts do not have too many lines for that; `None` if
    /// they have. Whatever the texts, equal texts give no block and no line
    /// that only the translation has.
    pub fn try_get_mismatch_lines(source: &str, target: &str) -> (r: Option<
        (Vec<(Vec<Line>, Vec<Line>)>, Vec<Line>),
    >)
        ensures
            r is Some <==> diff_fits(lines_of(source@).len(), lines_of(target@).len()),
            r matches Some(x) ==> {
                &&& block_views(x.0@) == aligned(line_diff(source@, target@)).0
                &&& line_views(x.1@) == aligned(line_diff(source@, target@)).1
                &&& blocks_placed(block_views(x.0@), script_lines(source@), script_lines(target@))
                &&& placed(line_views(x.1@), script_lines(target@))
            },
            source@ == target@ ==> (r matches Some(x) ==> x.0@.len() == 0 && x.1@.len() == 0),
            covered(source@, target@) && r is Some ==> none_left(line_diff(source@, target@)),
    {
        let l = count_lines(&to_chars(source));
        let r = count_lines(&to_chars(target));
        if fits(l, r) {
            Some(Matcher::get_mismatch_lines(source, target))
        } else {
            None
        }
    }

    /// Lines up the lines of `source` and `target` and cuts the result into
    /// blocks. Returns the blocks, and every line that only the translation
    /// has. Every line that is returned stands in its text at its number.
    /// Equal texts have no block and no such line.
    pub fn get_mismatch_lines(source: &str, target: &str) -> (r: (
        Vec<(Vec<Line>, Vec<Line>)>,
        Vec<Line>,
    ))
        requires
            diff_fits(lines_of(source@).len(), lines_of(target@).len()),
        ensures
            block_views(r.0@) == aligned(line_diff(source@, target@)).0,
            line_views(r.1@) == aligned(line_diff(source@, target@)).1,
            blocks_placed(block_views(r.0@), script_lines(source@), script_lines(target@)),
            placed(line_views(r.1@), script_lines(target@)),
            source@ == target@ ==> r.0@.len() == 0 && r.1@.len() == 0,
            covered(source@, target@) ==> none_left(line_diff(source@, target@)),
    {
        let diff = lines_diff(source, target);
        proof {
            if covered(source@, target@) {
                crate::diffs_laws::lemma_covered_none_left(item_views(diff@), source@, target@);
            }
            crate::align_laws::law_numbers_are_positions(item_views(diff@));
            if source@ == target@ {
                crate::align_laws::law_all_both_no_blocks(item_views(diff@));
            }
        }
        let r = align(&diff);
        assert(block_views(r.0@).len() == r.0@.len());
        assert(line_views(r.1@).len() == r.1@.len());
        r
    }
}

} // verus!
