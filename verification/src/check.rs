//! Comparing a source text with its translation, and a tree of such pairs.

use vstd::prelude::*;
use vstd::string::StrSliceExecFns;
use crate::align::{aligned, block_view, block_views, BlockView};
use crate::diffs::{diff_fits, line_diff};
use crate::matcher::{
    line_views, mismatch_views, outcome_views, target_only_views, Line, LineView, MatchError,
    Matcher, Mismatch, MismatchLine, MismatchLineView, MismatchLines, MismatchLinesView,
    MismatchView, MissingFile, MissingFileView, TargetOnly, TargetOnlyView,
};
use crate::normalize::{reverted, uncommented};
use crate::diffs_laws::covered;
use crate::similar::{block_fits, garbage_of, is_block_small, resolved};
use crate::similar_laws::{anchors_ascend, missing_follow_edits};
use crate::text::lines_of;

verus! {

/// The findings of a sequence of blocks, block after block.
pub open spec fn resolved_blocks(blocks: Seq<BlockView>, th: crate::matcher::Threshold) -> Seq<
    MismatchLineView,
>
    decreases blocks.len(),
{
    if blocks.len() == 0 {
        Seq::empty()
    } else {
        resolved_blocks(blocks.drop_last(), th) + resolved(
            blocks.last().lefts,
            blocks.last().rights,
            th,
        )
    }
}

/// Every block is small enough for its lines to be lined up with each other.
pub open spec fn blocks_fit(blocks: Seq<BlockView>) -> bool {
    forall|i: int|
        0 <= i < blocks.len() ==> block_fits((#[trigger] blocks[i]).lefts, blocks[i].rights)
}

/// Every line of the source, as it is compared, stands in the translation, as
/// it is compared, in the same order.
pub open spec fn fully_matched(m: Matcher, source: Seq<char>, target: Seq<char>) -> bool {
    uncommented(
        source,
        m.keep_markdown_comment,
        m.markdown_comment_begin@,
        m.markdown_comment_end@,
    ) matches Some(s) && covered(
        s,
        reverted(target, m.enable_code_comment_tweak, m.code_comment_header@),
    )
}

/// What comparing `source` with `target` yields: the findings, and every line
/// that only the translation has. The source is compared without its
/// comments, the translation without the headers on its lines of code. The
/// texts are too large if they have too many lines to be lined up, or if a
/// block holds lines that are too long to be lined up with each other.
pub open spec fn checked(m: Matcher, source: Seq<char>, target: Seq<char>) -> Result<
    (Seq<MismatchLineView>, Seq<LineView>),
    MatchError,
> {
    match uncommented(
        source,
        m.keep_markdown_comment,
        m.markdown_comment_begin@,
        m.markdown_comment_end@,
    ) {
        None => Err(MatchError::MalformedInput),
        Some(s) => {
            let t = reverted(target, m.enable_code_comment_tweak, m.code_comment_header@);
            if !diff_fits(lines_of(s).len(), lines_of(t).len()) {
                Err(MatchError::TooLarge)
            } else {
                let a = aligned(line_diff(s, t));
                if blocks_fit(a.0) {
                    Ok((resolved_blocks(a.0, m.similar_threshold), a.1))
                } else {
                    Err(MatchError::TooLarge)
                }
            }
        },
    }
}

/// A source file and its translation, as read.
#[derive(Clone, Debug)]
pub struct FilePair {
    pub source_path: String,
    pub target_path: String,
    /// The text of the source file.
    pub source: String,
    /// The text of the translation, if the file exists.
    pub target: Option<String>,
}

/// What a tree of file pairs yields.
#[derive(Clone, Debug)]
pub struct TreeReport {
    /// The outcome for each pair that could be compared, in their order.
    pub mismatches: Vec<Mismatch>,
    /// For each pair that was compared, the lines that only the translation
    /// has.
    pub target_onlys: Vec<TargetOnly>,
    /// The pairs that could not be compared, by position, with the reason.
    pub skipped: Vec<(usize, MatchError)>,
}

/// What a [`TreeReport`] stands for.
pub struct TreeReportView {
    pub mismatches: Seq<MismatchView>,
    pub target_onlys: Seq<TargetOnlyView>,
    pub skipped: Seq<(usize, MatchError)>,
}

impl View for TreeReport {
    type V = TreeReportView;

    open spec fn view(&self) -> TreeReportView {
        TreeReportView {
            mismatches: outcome_views(self.mismatches@),
            target_onlys: target_only_views(self.target_onlys@),
            skipped: self.skipped@,
        }
    }
}

/// The report with the outcome of one more pair, which is number `i`.
pub open spec fn with_pair(m: Matcher, before: TreeReportView, pair: FilePair, i: int)
    -> TreeReportView {
    match pair.target {
        None => TreeReportView {
            mismatches: before.mismatches.push(
                MismatchView::MissingFile(
                    MissingFileView {
                        source_path: pair.source_path@,
                        target_path: pair.target_path@,
                    },
                ),
            ),
            ..before
        },
        Some(target) => match checked(m, pair.source@, target@) {
            Ok((lines, only)) => TreeReportView {
                mismatches: before.mismatches.push(
                    MismatchView::MismatchLines(
                        MismatchLinesView {
                            source_path: pair.source_path@,
                            target_path: pair.target_path@,
                            lines,
                        },
                    ),
                ),
                target_onlys: before.target_onlys.push(
                    TargetOnlyView { target_path: pair.target_path@, lines: only },
                ),
                ..before
            },
            Err(e) => TreeReportView { skipped: before.skipped.push((i as usize, e)), ..before },
        },
    }
}

/// The report for the first `n` pairs.
pub open spec fn tree_checked(m: Matcher, pairs: Seq<FilePair>, n: int) -> TreeReportView
    decreases n,
{
    if n <= 0 {
        TreeReportView {
            mismatches: Seq::empty(),
            target_onlys: Seq::empty(),
            skipped: Seq::empty(),
        }
    } else {
        with_pair(m, tree_checked(m, pairs, n - 1), pairs[n - 1], n - 1)
    }
}

impl Matcher {
    /// Whether every block is small enough for its lines to be lined up with
    /// each other.
    pub fn all_blocks_fit(blocks: &Vec<(Vec<Line>, Vec<Line>)>) -> (r: bool)
        ensures
            r == blocks_fit(block_views(blocks@)),
    {
        let ghost all = block_views(blocks@);
        let mut i: usize = 0;
        while i < blocks.len()
            invariant
                i <= blocks.len(),
                all == block_views(blocks@),
                forall|j: int| 0 <= j < i ==> block_fits((#[trigger] all[j]).lefts, all[j].rights),
            decreases blocks.len() - i,
        {
            assert(all[i as int] == block_view(blocks@[i as int]));
            if !is_block_small(blocks[i].0.as_slice(), blocks[i].1.as_slice()) {
                return false;
            }
            i += 1;
        }
        true
    }

    /// Classifies the lines of a sequence of blocks, block after block.
    pub fn resolve_all(&self, blocks: &Vec<(Vec<Line>, Vec<Line>)>) -> (out: Vec<MismatchLine>)
        requires
            blocks_fit(block_views(blocks@)),
        ensures
            mismatch_views(out@) == resolved_blocks(block_views(blocks@), self.similar_threshold),
    {
        let mut out: Vec<MismatchLine> = Vec::new();
        let mut i: usize = 0;
        let ghost all = block_views(blocks@);
        assert(all.take(0) =~= Seq::empty());
        assert(mismatch_views(out@) =~= Seq::empty());
        while i < blocks.len()
            invariant
                i <= blocks.len(),
                all == block_views(blocks@),
                blocks_fit(all),
                mismatch_views(out@) == resolved_blocks(
                    all.take(i as int),
                    self.similar_threshold,
                ),
            decreases blocks.len() - i,
        {
            let block = &blocks[i];
            assert(all[i as int] == block_view(*block));
            assert(all.take(i + 1).drop_last() =~= all.take(i as int));
            let mut part = self.resolve(block.0.as_slice(), block.1.as_slice());
            let ghost before = out@;
            let ghost added = part@;
            out.append(&mut part);
            assert(mismatch_views(before + added) =~= mismatch_views(before) + mismatch_views(
                added,
            ));
            i += 1;
        }
        assert(all.take(blocks.len() as int) =~= all);
        out
    }

    /// Compares the text of a source file with the text of its translation.
    ///
    /// Returns the findings, under the two paths, and every line that only
    /// the translation has. Over all the findings, the place where a missing
    /// line belongs does not lie before that of an earlier missing line, nor
    /// before an earlier edited line. Where every line of the source stands
    /// in the translation in the same order, the findings are the marked
    /// lines that only the translation has, each as garbage, and nothing
    /// else. Fails if a comment of the source does
    /// not end, or if the two texts are too large: they have too many lines
    /// to be lined up, or a block holds lines too long to be lined up.
    pub fn check_file(&self, source_path: &str, target_path: &str, source: &str, target: &str) -> (r:
        Result<(MismatchLines, Vec<Line>), MatchError>)
        ensures
            match checked(*self, source@, target@) {
                Ok((lines, only)) => {
                    &&& r matches Ok((m, o))
                    &&& m@ == MismatchLinesView {
                        source_path: source_path@,
                        target_path: target_path@,
                        lines,
                    }
                    &&& line_views(o@) == only
                },
                Err(e) => r matches Err(e2) && e2 == e,
            },
            r matches Ok((m, _)) ==> anchors_ascend(m@.lines) && missing_follow_edits(m@.lines),
            fully_matched(*self, source@, target@) ==> (r matches Ok((m, o)) ==> m@.lines
                == garbage_of(line_views(o@))),
    {
        let source = match self.remove_markdown_comment(source) {
            Ok(s) => s,
            Err(e) => {
                return Err(e);
            },
        };
        let target = self.revert_code_comment(target);
        let (blocks, right_only) = match Matcher::try_get_mismatch_lines(
            source.as_str(),
            target.as_str(),
        ) {
            Some(x) => x,
            None => {
                return Err(MatchError::TooLarge);
            },
        };
        if !Matcher::all_blocks_fit(&blocks) {
            return Err(MatchError::TooLarge);
        }
        proof {
            crate::check_laws::law_file_anchors_ascend(
                line_diff(source@, target@),
                self.similar_threshold,
            );
            if covered(source@, target@) {
                crate::check_laws::law_marked_lines_surface(
                    line_diff(source@, target@),
                    self.similar_threshold,
                );
            }
        }
        let lines = self.resolve_all(&blocks);
        Ok(
            (
                MismatchLines {
                    source_path: source_path.to_owned(),
                    target_path: target_path.to_owned(),
                    lines,
                },
                right_only,
            ),
        )
    }

    /// Compares every source file of a tree with its translation.
    ///
    /// A pair without a translation is reported as a missing file. A pair
    /// that cannot be compared is skipped and listed with the reason.
    pub fn check_dir(&self, pairs: &Vec<FilePair>) -> (report: TreeReport)
        ensures
            report@ == tree_checked(*self, pairs@, pairs@.len() as int),
    {
        let mut report = TreeReport {
            mismatches: Vec::new(),
            target_onlys: Vec::new(),
            skipped: Vec::new(),
        };
        let mut i: usize = 0;
        assert(report@.mismatches =~= Seq::empty());
        assert(report@.target_onlys =~= Seq::empty());
        while i < pairs.len()
            invariant
                i <= pairs.len(),
                report@ == tree_checked(*self, pairs@, i as int),
            decreases pairs.len() - i,
        {
            let pair = &pairs[i];
            let ghost before = report;
            match &pair.target {
                None => {
                    let m = Mismatch::MissingFile(
                        MissingFile {
                            source_path: pair.source_path.clone(),
                            target_path: pair.target_path.clone(),
                        },
                    );
                    report.mismatches.push(m);
                    assert(outcome_views(report.mismatches@) =~= outcome_views(
                        before.mismatches@,
                    ).push(m@));
                },
                Some(target) => {
                    match self.check_file(
                        pair.source_path.as_str(),
                        pair.target_path.as_str(),
                        pair.source.as_str(),
                        target.as_str(),
                    ) {
                        Ok((lines, only)) => {
                            let m = Mismatch::MismatchLines(lines);
                            let t = TargetOnly {
                                target_path: pair.target_path.clone(),
                                lines: only,
                            };
                            report.mismatches.push(m);
                            report.target_onlys.push(t);
                            assert(outcome_views(report.mismatches@) =~= outcome_views(
                                before.mismatches@,
                            ).push(m@));
                            assert(target_only_views(report.target_onlys@) =~= target_only_views(
                                before.target_onlys@,
                            ).push(t@));
                        },
                        Err(e) => {
                            report.skipped.push((i, e));
                        },
                    }
                },
            }
            i += 1;
        }
        report
    }
}

} // verus!
