//! The plain comparison: source lines that a translation lacks, each with
//! the line of the translation that shares most with it. It knows no
//! comments and no threshold.

use vstd::prelude::*;
use vstd::slice::slice_subrange;
use vstd::string::StrSliceExecFns;
use crate::check::FilePair;
use crate::diffs::{
    chars_diff, diff_fits, fits, item_view, item_views, lemma_diff_fits_smaller, line_diff,
    lines_diff, within, DiffItem,
};
use crate::matcher::MatchError;
use crate::similar::{common_chars, count_common};
use crate::text::{
    has_at, join_lines, lines_of, push_range, rows, split_lines, to_chars, trimmed,
    trimmed_starts_with,
};

verus! {

/// One line of text in one of the two files.
#[derive(Debug)]
pub struct Line {
    /// The position of the line in its own file, counted from 1.
    pub number: usize,
    /// The text of the line, without its line ending.
    pub content: String,
}

/// What a [`Line`] stands for.
pub struct LineView {
    pub number: nat,
    pub content: Seq<char>,
}

impl View for Line {
    type V = LineView;

    open spec fn view(&self) -> LineView {
        LineView { number: self.number as nat, content: self.content@ }
    }
}

impl Clone for Line {
    fn clone(&self) -> (r: Self)
        ensures
            r@ == self@,
    {
        Line { number: self.number, content: self.content.clone() }
    }
}

/// A source line without a partner, and the line of the translation that
/// comes closest to it, if one does.
#[derive(Clone, Debug)]
pub struct MissingLine {
    pub source: Line,
    pub target: Option<Line>,
}

/// What a [`MissingLine`] stands for.
pub struct MissingLineView {
    pub source: LineView,
    pub target: Option<LineView>,
}

impl View for MissingLine {
    type V = MissingLineView;

    open spec fn view(&self) -> MissingLineView {
        MissingLineView {
            source: self.source@,
            target: match self.target {
                Some(t) => Some(t@),
                None => None,
            },
        }
    }
}

/// The missing lines of one pair of files.
#[derive(Clone, Debug)]
pub struct MissingLines {
    pub source_path: String,
    pub target_path: String,
    pub lines: Vec<MissingLine>,
}

/// A source file whose translation does not exist.
#[derive(Clone, Debug)]
pub struct MissingFile {
    pub source_path: String,
    pub target_path: String,
}

/// The outcome of comparing one source file with its translation.
#[derive(Clone, Debug)]
pub enum Missing {
    File(MissingFile),
    Lines(MissingLines),
}

/// What a [`Missing`] stands for.
pub enum MissingView {
    File { source_path: Seq<char>, target_path: Seq<char> },
    Lines { source_path: Seq<char>, target_path: Seq<char>, lines: Seq<MissingLineView> },
}

impl View for Missing {
    type V = MissingView;

    open spec fn view(&self) -> MissingView {
        match self {
            Missing::File(f) => MissingView::File {
                source_path: f.source_path@,
                target_path: f.target_path@,
            },
            Missing::Lines(l) => MissingView::Lines {
                source_path: l.source_path@,
                target_path: l.target_path@,
                lines: missing_views(l.lines@),
            },
        }
    }
}

/// The settings of the plain comparison.
#[derive(Clone, Copy, Debug)]
pub struct Differ {
    /// Undo the `# ` that a translation puts before lines of code.
    pub code_comment: bool,
}

/// The views of a sequence of lines.
pub open spec fn line_views(s: Seq<Line>) -> Seq<LineView> {
    s.map_values(|l: Line| l@)
}

/// The views of a sequence of missing lines.
pub open spec fn missing_views(s: Seq<MissingLine>) -> Seq<MissingLineView> {
    s.map_values(|m: MissingLine| m@)
}

/// The views of a sequence of outcomes.
pub open spec fn outcome_views(s: Seq<Missing>) -> Seq<MissingView> {
    s.map_values(|m: Missing| m@)
}

/// A run of source lines without a partner, and the lines of the translation
/// in their place.
pub struct BlockView {
    pub lefts: Seq<LineView>,
    pub rights: Seq<LineView>,
}

/// What a sequence of blocks stands for.
pub open spec fn block_views(s: Seq<(Vec<Line>, Vec<Line>)>) -> Seq<BlockView> {
    s.map_values(
        |b: (Vec<Line>, Vec<Line>)| BlockView { lefts: line_views(b.0@), rights: line_views(b.1@) },
    )
}

/// The state of a pass over an edit script.
pub struct Pass {
    pub source_line: nat,
    pub target_line: nat,
    pub lefts: Seq<LineView>,
    pub rights: Seq<LineView>,
    pub blocks: Seq<BlockView>,
}

impl Pass {
    /// Closes the current run: with source lines in it, it becomes a block.
    pub open spec fn flush(self) -> Pass {
        Pass {
            lefts: Seq::empty(),
            rights: Seq::empty(),
            blocks: if self.lefts.len() > 0 {
                self.blocks.push(BlockView { lefts: self.lefts, rights: self.rights })
            } else {
                self.blocks
            },
            ..self
        }
    }

    /// The state after one more step of the script.
    pub open spec fn step(self, item: DiffItem<Seq<char>>) -> Pass {
        match item {
            DiffItem::Left(c) => Pass {
                source_line: self.source_line + 1,
                lefts: self.lefts.push(LineView { number: self.source_line + 1, content: c }),
                ..self
            },
            DiffItem::Right(c) => Pass {
                target_line: self.target_line + 1,
                rights: self.rights.push(LineView { number: self.target_line + 1, content: c }),
                ..self
            },
            DiffItem::Both(_, _) => Pass {
                source_line: self.source_line + 1,
                target_line: self.target_line + 1,
                ..self
            }.flush(),
        }
    }

    /// The state after the whole script.
    pub open spec fn run(items: Seq<DiffItem<Seq<char>>>) -> Pass
        decreases items.len(),
    {
        if items.len() == 0 {
            Pass {
                source_line: 0,
                target_line: 0,
                lefts: Seq::empty(),
                rights: Seq::empty(),
                blocks: Seq::empty(),
            }
        } else {
            Pass::run(items.drop_last()).step(items.last())
        }
    }

    /// No line that the state holds is longer than its text allows.
    pub open spec fn within(self, l: nat, r: nat) -> bool {
        &&& forall|i: int| 0 <= i < self.lefts.len() ==> (#[trigger] self.lefts[i]).content.len() <= l
        &&& forall|i: int|
            0 <= i < self.rights.len() ==> (#[trigger] self.rights[i]).content.len() <= r
        &&& forall|i: int| 0 <= i < self.blocks.len() ==> block_fits(#[trigger] self.blocks[i], l, r)
    }

    proof fn lemma_run_within(items: Seq<DiffItem<Seq<char>>>, l: nat, r: nat)
        requires
            within(items, l, r),
        ensures
            Pass::run(items).within(l, r),
            Pass::run(items).flush().within(l, r),
        decreases items.len(),
    {
        if items.len() > 0 {
            let init = items.drop_last();
            assert(within(init, l, r)) by {
                assert forall|i: int| 0 <= i < init.len() implies match #[trigger] init[i] {
                    DiffItem::Left(x) => x.len() <= l,
                    DiffItem::Both(x, y) => x.len() <= l && y.len() <= r,
                    DiffItem::Right(y) => y.len() <= r,
                } by {
                    assert(init[i] == items[i]);
                }
            }
            Pass::lemma_run_within(init, l, r);
            assert(items.last() == items[items.len() - 1]);
        }
    }
}

/// No source line of the block is longer than `l`, no line of the
/// translation longer than `r`.
pub open spec fn block_fits(b: BlockView, l: nat, r: nat) -> bool {
    &&& forall|i: int| 0 <= i < b.lefts.len() ==> (#[trigger] b.lefts[i]).content.len() <= l
    &&& forall|i: int| 0 <= i < b.rights.len() ==> (#[trigger] b.rights[i]).content.len() <= r
}

/// The blocks of an edit script.
pub open spec fn blocks_of(items: Seq<DiffItem<Seq<char>>>) -> Seq<BlockView> {
    Pass::run(items).flush().blocks
}

/// The best of the first `n` candidates, each given by the number of
/// characters it shares with the source line: the one that shares the most,
/// and at least one; the earliest where several share the same.
pub open spec fn most_upto(counts: Seq<nat>, n: int) -> Option<int>
    decreases n,
{
    if n <= 0 {
        None
    } else {
        let before = most_upto(counts, n - 1);
        let most = match before {
            Some(j) => counts[j],
            None => 0,
        };
        if counts[n - 1] > most {
            Some(n - 1)
        } else {
            before
        }
    }
}

/// For each candidate, the number of characters it shares with the source
/// line.
pub open spec fn shared_with(source: LineView, targets: Seq<LineView>) -> Seq<nat> {
    Seq::new(targets.len(), |i: int| common_chars(source.content, targets[i].content))
}

/// The counts as numbers without bound.
pub open spec fn count_views(counts: Seq<usize>) -> Seq<nat> {
    counts.map_values(|c: usize| c as nat)
}

/// The best of the first `n` candidates for the source line.
pub open spec fn closest_upto(source: LineView, targets: Seq<LineView>, n: int) -> Option<int> {
    most_upto(shared_with(source, targets), n)
}

/// The candidate that comes closest to the source line, if any.
pub open spec fn closest(source: LineView, targets: Seq<LineView>) -> Option<int> {
    closest_upto(source, targets, targets.len() as int)
}

/// The source lines from `k` on, each with the closest of the candidates
/// that are left; the candidates up to the one taken leave.
pub open spec fn paired_from(lefts: Seq<LineView>, k: int, rights: Seq<LineView>) -> Seq<
    MissingLineView,
>
    decreases lefts.len() - k,
{
    if k < 0 || k >= lefts.len() {
        Seq::empty()
    } else {
        match closest(lefts[k], rights) {
            Some(i) => seq![MissingLineView { source: lefts[k], target: Some(rights[i]) }]
                + paired_from(lefts, k + 1, rights.skip(i + 1)),
            None => seq![MissingLineView { source: lefts[k], target: None }] + paired_from(
                lefts,
                k + 1,
                rights,
            ),
        }
    }
}

/// The missing lines of the first `n` blocks.
pub open spec fn paired_blocks(blocks: Seq<BlockView>, n: int) -> Seq<MissingLineView>
    decreases n,
{
    if n <= 0 {
        Seq::empty()
    } else {
        paired_blocks(blocks, n - 1) + paired_from(blocks[n - 1].lefts, 0, blocks[n - 1].rights)
    }
}

/// The line, trimmed, starts with a fence that is tagged as code.
pub open spec fn opens_code(c: Seq<char>) -> bool {
    "```rust"@.is_prefix_of(trimmed(c))
}

/// The line, trimmed, starts with a fence.
pub open spec fn is_fence(c: Seq<char>) -> bool {
    "```"@.is_prefix_of(trimmed(c))
}

/// Whether line `n - 1` of `lines` lies in a code block: a fence tagged as
/// code opens one, any other fence closes it.
pub open spec fn code_state(lines: Seq<Seq<char>>, n: int) -> bool
    decreases n,
{
    if n <= 0 || n > lines.len() {
        false
    } else if opens_code(lines[n - 1]) {
        true
    } else if is_fence(lines[n - 1]) {
        false
    } else {
        code_state(lines, n - 1)
    }
}

/// The lines, each without a leading `# ` where it lies in a code block.
pub open spec fn reverted_lines(lines: Seq<Seq<char>>) -> Seq<Seq<char>> {
    Seq::new(
        lines.len(),
        |i: int|
            if code_state(lines, i + 1) && "# "@.is_prefix_of(lines[i]) {
                lines[i].skip("# "@.len() as int)
            } else {
                lines[i]
            },
    )
}

/// The text with the `# ` taken from its lines of code, each line ended by
/// a line feed; the text as it is if this is not enabled.
pub open spec fn reverted(text: Seq<char>, enabled: bool) -> Seq<char> {
    if enabled {
        join_lines(reverted_lines(lines_of(text)))
    } else {
        text
    }
}

/// The missing lines of `source` against `target`.
pub open spec fn checked(d: Differ, source: Seq<char>, target: Seq<char>) -> Result<
    Seq<MissingLineView>,
    MatchError,
> {
    let t = reverted(target, d.code_comment);
    if diff_fits(source.len(), t.len()) {
        let blocks = blocks_of(line_diff(source, t));
        Ok(paired_blocks(blocks, blocks.len() as int))
    } else {
        Err(MatchError::TooLarge)
    }
}

/// The outcome for one pair.
pub open spec fn pair_checked(d: Differ, pair: FilePair) -> Result<MissingView, MatchError> {
    match pair.target {
        None => Ok(
            MissingView::File { source_path: pair.source_path@, target_path: pair.target_path@ },
        ),
        Some(target) => match checked(d, pair.source@, target@) {
            Ok(lines) => Ok(
                MissingView::Lines {
                    source_path: pair.source_path@,
                    target_path: pair.target_path@,
                    lines,
                },
            ),
            Err(e) => Err(e),
        },
    }
}

/// The outcomes for the first `n` pairs, or the reason why the first pair
/// that cannot be compared cannot.
pub open spec fn tree_checked(d: Differ, pairs: Seq<FilePair>, n: int) -> Result<
    Seq<MissingView>,
    MatchError,
>
    decreases n,
{
    if n <= 0 {
        Ok(Seq::empty())
    } else {
        match tree_checked(d, pairs, n - 1) {
            Err(e) => Err(e),
            Ok(before) => match pair_checked(d, pairs[n - 1]) {
                Ok(m) => Ok(before.push(m)),
                Err(e) => Err(e),
            },
        }
    }
}

/// Picks among candidates, each given by the number of characters it shares
/// with a source line: the one that shares the most, and at least one; the
/// first where several share the same.
pub fn pick_closest(counts: &Vec<usize>) -> (r: Option<usize>)
    ensures
        most_upto(count_views(counts@), counts@.len() as int) == match r {
            Some(i) => Some(i as int),
            None => None,
        },
        r matches Some(i) ==> i < counts.len(),
{
    let ghost all = count_views(counts@);
    let mut most: usize = 0;
    let mut index: Option<usize> = None;
    let mut i: usize = 0;
    while i < counts.len()
        invariant
            i <= counts.len(),
            all == count_views(counts@),
            match index {
                Some(j) => j < i && most_upto(all, i as int) == Some(j as int) && most
                    == counts@[j as int],
                None => most_upto(all, i as int) is None && most == 0,
            },
        decreases counts.len() - i,
    {
        assert(all[i as int] == counts@[i as int] as nat);
        proof {
            if index is Some {
                assert(all[index->0 as int] == counts@[index->0 as int] as nat);
            }
        }
        if counts[i] > most {
            most = counts[i];
            index = Some(i);
        }
        i += 1;
    }
    index
}

impl Differ {
    /// Compares every source file of a tree with its translation. Stops at
    /// the first pair that cannot be compared.
    pub fn check_dir(&self, pairs: &Vec<FilePair>) -> (r: Result<Vec<Missing>, MatchError>)
        ensures
            match tree_checked(*self, pairs@, pairs@.len() as int) {
                Ok(all) => r matches Ok(v) && outcome_views(v@) == all,
                Err(e) => r matches Err(e2) && e2 == e,
            },
    {
        let mut ret: Vec<Missing> = Vec::new();
        let mut i: usize = 0;
        assert(outcome_views(ret@) =~= Seq::empty());
        while i < pairs.len()
            invariant
                i <= pairs.len(),
                tree_checked(*self, pairs@, i as int) == Ok::<Seq<MissingView>, MatchError>(
                    outcome_views(ret@),
                ),
            decreases pairs.len() - i,
        {
            let pair = &pairs[i];
            let ghost before = ret@;
            match &pair.target {
                None => {
                    let m = Missing::File(
                        MissingFile {
                            source_path: pair.source_path.clone(),
                            target_path: pair.target_path.clone(),
                        },
                    );
                    ret.push(m);
                    assert(outcome_views(ret@) =~= outcome_views(before).push(m@));
                },
                Some(target) => {
                    match self.check_file(
                        pair.source_path.as_str(),
                        pair.target_path.as_str(),
                        pair.source.as_str(),
                        target.as_str(),
                    ) {
                        Ok(lines) => {
                            let m = Missing::Lines(lines);
                            ret.push(m);
                            assert(outcome_views(ret@) =~= outcome_views(before).push(m@));
                        },
                        Err(e) => {
                            proof {
                                lemma_tree_checked_fails(*self, pairs@, i + 1, pairs@.len() as int);
                            }
                            return Err(e);
                        },
                    }
                },
            }
            i += 1;
        }
        Ok(ret)
    }

    /// Compares the text of a source file with the text of its translation.
    /// Fails if the two texts are too large to be lined up.
    pub fn check_file(&self, source_path: &str, target_path: &str, source: &str, target: &str) -> (r:
        Result<MissingLines, MatchError>)
        ensures
            match checked(*self, source@, target@) {
                Ok(lines) => {
                    &&& r matches Ok(m)
                    &&& m.source_path@ == source_path@
                    &&& m.target_path@ == target_path@
                    &&& missing_views(m.lines@) == lines
                },
                Err(e) => r matches Err(e2) && e2 == e,
            },
    {
        let target = self.revert_code_comment(target);
        if !fits(source.unicode_len(), target.as_str().unicode_len()) {
            return Err(MatchError::TooLarge);
        }
        proof {
            // a text has no more lines than characters
            crate::normalize_laws::lemma_newlines_bound(source@);
            crate::normalize_laws::lemma_newlines_bound(target@);
            lemma_diff_fits_smaller(
                source@.len(),
                target@.len(),
                lines_of(source@).len(),
                lines_of(target@).len(),
            );
        }
        let blocks = Differ::get_missing_lines(source, target.as_str());
        let ghost all = block_views(blocks@);
        let mut lines: Vec<MissingLine> = Vec::new();
        let mut b: usize = 0;
        assert(missing_views(lines@) =~= Seq::empty());
        while b < blocks.len()
            invariant
                b <= blocks.len(),
                all == block_views(blocks@),
                diff_fits(source@.len(), target@.len()),
                forall|i: int|
                    0 <= i < all.len() ==> block_fits(
                        #[trigger] all[i],
                        source@.len(),
                        target@.len(),
                    ),
                missing_views(lines@) == paired_blocks(all, b as int),
            decreases blocks.len() - b,
        {
            let lefts = &blocks[b].0;
            let ghost ls = line_views(lefts@);
            let ghost rs = line_views(blocks@[b as int].1@);
            assert(all[b as int] == (BlockView { lefts: ls, rights: rs }));
            let ghost start = missing_views(lines@);
            let mut rights: &[Line] = blocks[b].1.as_slice();
            let mut k: usize = 0;
            proof {
                let block = all[b as int];
                assert(block_fits(block, source@.len(), target@.len()));
                assert(line_views(rights@) == rs);
                assert forall|i: int| 0 <= i < ls.len() implies (#[trigger] ls[i]).content.len()
                    <= source@.len() by {
                    assert(block.lefts[i] == ls[i]);
                }
                assert forall|i: int| 0 <= i < rights@.len() implies (#[trigger] line_views(
                    rights@,
                )[i]).content.len() <= target@.len() by {
                    assert(block.rights[i] == line_views(rights@)[i]);
                }
            }
            while k < lefts.len()
                invariant
                    k <= lefts.len(),
                    ls == line_views(lefts@),
                    diff_fits(source@.len(), target@.len()),
                    forall|i: int|
                        0 <= i < ls.len() ==> (#[trigger] ls[i]).content.len() <= source@.len(),
                    forall|i: int|
                        0 <= i < rights@.len() ==> (#[trigger] line_views(
                            rights@,
                        )[i]).content.len() <= target@.len(),
                    start + paired_from(ls, 0, rs) == missing_views(lines@) + paired_from(
                        ls,
                        k as int,
                        line_views(rights@),
                    ),
                decreases lefts.len() - k,
            {
                let left = &lefts[k];
                let ghost cur = line_views(rights@);
                let ghost done = missing_views(lines@);
                assert(ls[k as int] == left@);
                proof {
                    assert forall|j: int| 0 <= j < cur.len() implies diff_fits(
                        left@.content.len(),
                        (#[trigger] cur[j]).content.len(),
                    ) by {
                        lemma_diff_fits_smaller(
                            source@.len(),
                            target@.len(),
                            left@.content.len(),
                            cur[j].content.len(),
                        );
                    }
                }
                let (similar, rest) = Differ::get_similar_line(left, rights);
                proof {
                    assert forall|i: int| 0 <= i < rest@.len() implies (#[trigger] line_views(
                        rest@,
                    )[i]).content.len() <= target@.len() by {
                        match closest(left@, cur) {
                            Some(c) => {
                                assert(line_views(rest@)[i] == cur[i + c + 1]);
                            },
                            None => {},
                        }
                    }
                    match closest(left@, cur) {
                        Some(c) => {
                            assert(line_views(rest@) =~= cur.skip(c + 1));
                        },
                        None => {},
                    }
                }
                let m = MissingLine { source: left.clone(), target: similar };
                lines.push(m);
                assert(missing_views(lines@) =~= done.push(m@));
                rights = rest;
                k += 1;
            }
            assert(missing_views(lines@) =~= start + paired_from(ls, 0, rs));
            b += 1;
        }
        Ok(
            MissingLines {
                source_path: source_path.to_owned(),
                target_path: target_path.to_owned(),
                lines,
            },
        )
    }

    /// Undoes the `# ` that the translation puts before lines of code.
    ///
    /// Does nothing unless `code_comment` is set. Else every line that lies
    /// in a code block and starts with `# ` loses it, and every line ends
    /// with a line feed.
    pub fn revert_code_comment(&self, target: &str) -> (r: String)
        ensures
            r@ == reverted(target@, self.code_comment),
    {
        if !self.code_comment {
            return target.to_owned();
        }
        let text = to_chars(target);
        let lines = split_lines(&text);
        let header = to_chars("# ");
        let fence = to_chars("```");
        let code_fence = to_chars("```rust");
        let mut out = String::new();
        let mut inside = false;
        let mut i: usize = 0;
        let ghost all = rows(lines@);
        let ghost goal = reverted_lines(all);
        assert(goal.take(0) =~= Seq::empty());
        while i < lines.len()
            invariant
                i <= lines.len(),
                all == rows(lines@),
                goal == reverted_lines(all),
                header@ == "# "@,
                fence@ == "```"@,
                code_fence@ == "```rust"@,
                inside == code_state(all, i as int),
                out@ == join_lines(goal.take(i as int)),
            decreases lines.len() - i,
        {
            let line = &lines[i];
            assert(all[i as int] == line@);
            if trimmed_starts_with(line, &code_fence) {
                inside = true;
            } else if trimmed_starts_with(line, &fence) {
                inside = false;
            }
            let from: usize = if inside && has_at(line, 0, &header) {
                header.len()
            } else {
                0
            };
            proof {
                assert(line@.subrange(from as int, line.len() as int) =~= goal[i as int]);
                assert(goal.take(i + 1).drop_last() =~= goal.take(i as int));
            }
            push_range(&mut out, line, from, line.len());
            out.push('\n');
            i += 1;
            assert(out@ =~= join_lines(goal.take(i as int)));
        }
        assert(goal.take(lines.len() as int) =~= goal);
        out
    }

    /// Lines up the lines of `source` and `target` and returns the runs of
    /// source lines without a partner, each with the lines of the translation
    /// in its place.
    pub fn get_missing_lines(source: &str, target: &str) -> (r: Vec<(Vec<Line>, Vec<Line>)>)
        requires
            diff_fits(lines_of(source@).len(), lines_of(target@).len()),
        ensures
            block_views(r@) == blocks_of(line_diff(source@, target@)),
            forall|i: int|
                0 <= i < r@.len() ==> block_fits(
                    #[trigger] block_views(r@)[i],
                    source@.len(),
                    target@.len(),
                ),
            source@ == target@ ==> r@.len() == 0,
    {
        let diff = lines_diff(source, target);
        let ghost items = item_views(diff@);
        let mut source_line: usize = 0;
        let mut target_line: usize = 0;
        let mut left_lines: Vec<Line> = Vec::new();
        let mut right_lines: Vec<Line> = Vec::new();
        let mut missing_lines: Vec<(Vec<Line>, Vec<Line>)> = Vec::new();
        let mut i: usize = 0;
        assert(items.take(0) =~= Seq::empty());
        assert(line_views(left_lines@) =~= Seq::empty());
        assert(line_views(right_lines@) =~= Seq::empty());
        assert(block_views(missing_lines@) =~= Seq::empty());
        while i < diff.len()
            invariant
                i <= diff.len(),
                items == item_views(diff@),
                source_line <= i,
                target_line <= i,
                Pass::run(items.take(i as int)) == (Pass {
                    source_line: source_line as nat,
                    target_line: target_line as nat,
                    lefts: line_views(left_lines@),
                    rights: line_views(right_lines@),
                    blocks: block_views(missing_lines@),
                }),
                source@ == target@ ==> left_lines@.len() == 0 && missing_lines@.len() == 0,
                source@ == target@ ==> crate::diffs::all_both(items),
            decreases diff.len() - i,
        {
            proof {
                assert(items.take(i + 1).drop_last() =~= items.take(i as int));
                assert(items.take(i + 1).last() == item_view(diff@[i as int]));
                assert(items[i as int] == item_view(diff@[i as int]));
            }
            let ghost lefts = left_lines@;
            let ghost rights = right_lines@;
            let ghost blocks = missing_lines@;
            match &diff[i] {
                DiffItem::Both(_, _) => {
                    source_line += 1;
                    target_line += 1;
                    if left_lines.len() > 0 {
                        let block = (left_lines, right_lines);
                        missing_lines.push(block);
                        assert(block_views(missing_lines@) =~= block_views(blocks).push(
                            BlockView { lefts: line_views(lefts), rights: line_views(rights) },
                        ));
                    }
                    left_lines = Vec::new();
                    right_lines = Vec::new();
                    assert(line_views(left_lines@) =~= Seq::empty());
                    assert(line_views(right_lines@) =~= Seq::empty());
                },
                DiffItem::Left(x) => {
                    source_line += 1;
                    let line = Line { number: source_line, content: x.clone() };
                    left_lines.push(line);
                    assert(line_views(left_lines@) =~= line_views(lefts).push(line@));
                },
                DiffItem::Right(x) => {
                    target_line += 1;
                    let line = Line { number: target_line, content: x.clone() };
                    right_lines.push(line);
                    assert(line_views(right_lines@) =~= line_views(rights).push(line@));
                },
            }
            i += 1;
        }
        assert(items.take(diff.len() as int) =~= items);
        if left_lines.len() > 0 {
            let ghost lefts = left_lines@;
            let ghost rights = right_lines@;
            let ghost blocks = missing_lines@;
            missing_lines.push((left_lines, right_lines));
            assert(block_views(missing_lines@) =~= block_views(blocks).push(
                BlockView { lefts: line_views(lefts), rights: line_views(rights) },
            ));
        }
        proof {
            crate::diffs::lemma_script_within(items, source@, target@);
            Pass::lemma_run_within(items, source@.len(), target@.len());
        }
        missing_lines
    }

    /// Looks among `target` for the line that shares the most characters
    /// with `source`. Returns it and the candidates after it; without one,
    /// all candidates are left.
    pub fn get_similar_line<'a>(source: &Line, target: &'a [Line]) -> (r: (Option<Line>, &'a [Line]))
        requires
            forall|j: int|
                0 <= j < target@.len() ==> diff_fits(
                    source@.content.len(),
                    (#[trigger] line_views(target@)[j]).content.len(),
                ),
        ensures
            match closest(source@, line_views(target@)) {
                Some(i) => {
                    &&& 0 <= i < target@.len()
                    &&& r.0 matches Some(t) && t@ == target@[i]@
                    &&& r.1@ == target@.skip(i + 1)
                },
                None => r.0 is None && r.1@ == target@,
            },
    {
        let ghost views = line_views(target@);
        let mut counts: Vec<usize> = Vec::new();
        let mut i: usize = 0;
        while i < target.len()
            invariant
                i <= target.len(),
                views == line_views(target@),
                forall|j: int|
                    0 <= j < target@.len() ==> diff_fits(
                        source@.content.len(),
                        (#[trigger] views[j]).content.len(),
                    ),
                counts@.len() == i,
                forall|j: int|
                    0 <= j < i ==> (#[trigger] count_views(counts@)[j]) == shared_with(
                        source@,
                        views,
                    )[j],
            decreases target.len() - i,
        {
            let t = &target[i];
            assert(views[i as int] == t@);
            let d = chars_diff(source.content.as_str(), t.content.as_str());
            let ghost before = counts@;
            counts.push(count_common(&d));
            assert forall|j: int| 0 <= j < i + 1 implies (#[trigger] count_views(counts@)[j])
                == shared_with(source@, views)[j] by {
                if j < i {
                    assert(count_views(counts@)[j] == count_views(before)[j]);
                }
            }
            i += 1;
        }
        assert(count_views(counts@) =~= shared_with(source@, views));
        match pick_closest(&counts) {
            Some(j) => (Some(target[j].clone()), slice_subrange(target, j + 1, target.len())),
            None => (None, target),
        }
    }
}

proof fn lemma_tree_checked_fails(d: Differ, pairs: Seq<FilePair>, n: int, m: int)
    requires
        0 <= n <= m,
        tree_checked(d, pairs, n) is Err,
    ensures
        tree_checked(d, pairs, m) == tree_checked(d, pairs, n),
    decreases m - n,
{
    if n < m {
        lemma_tree_checked_fails(d, pairs, n, m - 1);
    }
}

} // verus!
