//! The records that a comparison of a source file with its translation yields.

use vstd::prelude::*;

verus! {

/// One line of text in one of the two files.
#[derive(Debug)]
pub struct Line {
    /// The position of the line in its own file, counted from 1.
    pub number: usize,
    /// The text of the line, without its line ending.
    pub content: String,
    /// The number, in the other file, of the last line before this one on
    /// which both files agreed; 0 if there was none.
    pub last_both: usize,
    /// The line lies inside an HTML comment of the translation.
    pub html_comment: bool,
    /// The line lies inside a fenced code block and holds no comment marker.
    pub code_not_comment: bool,
}

/// What a [`Line`] stands for.
pub struct LineView {
    pub number: nat,
    pub content: Seq<char>,
    pub last_both: nat,
    pub html_comment: bool,
    pub code_not_comment: bool,
}

impl LineView {
    /// The line is marked as comment body or as code without a comment.
    pub open spec fn flagged(self) -> bool {
        self.html_comment || self.code_not_comment
    }
}

impl View for Line {
    type V = LineView;

    open spec fn view(&self) -> LineView {
        LineView {
            number: self.number as nat,
            content: self.content@,
            last_both: self.last_both as nat,
            html_comment: self.html_comment,
            code_not_comment: self.code_not_comment,
        }
    }
}

impl Clone for Line {
    fn clone(&self) -> (r: Self)
        ensures
            r@ == self@,
    {
        Line {
            number: self.number,
            content: self.content.clone(),
            last_both: self.last_both,
            html_comment: self.html_comment,
            code_not_comment: self.code_not_comment,
        }
    }
}

/// A source line and the line of the translation that was made from an
/// earlier state of it.
#[derive(Debug)]
pub struct ModifiedLine {
    pub source: Line,
    pub target: Line,
}

/// A source line that the translation has no counterpart for. Its
/// `last_both` says after which line of the translation it belongs.
#[derive(Debug)]
pub struct MissingLine {
    pub source: Line,
}

/// A line of the translation that is marked and has no counterpart in the
/// source.
#[derive(Debug)]
pub struct GarbageLine {
    pub target: Line,
}

/// One finding of a comparison.
#[derive(Debug)]
pub enum MismatchLine {
    Modified(ModifiedLine),
    Missing(MissingLine),
    Garbage(GarbageLine),
}

/// What a [`MismatchLine`] stands for.
pub enum MismatchLineView {
    Modified { source: LineView, target: LineView },
    Missing { source: LineView },
    Garbage { target: LineView },
}

impl View for MismatchLine {
    type V = MismatchLineView;

    open spec fn view(&self) -> MismatchLineView {
        match self {
            MismatchLine::Modified(m) => MismatchLineView::Modified {
                source: m.source@,
                target: m.target@,
            },
            MismatchLine::Missing(m) => MismatchLineView::Missing { source: m.source@ },
            MismatchLine::Garbage(g) => MismatchLineView::Garbage { target: g.target@ },
        }
    }
}

impl Clone for ModifiedLine {
    fn clone(&self) -> (r: Self)
        ensures
            r.source@ == self.source@,
            r.target@ == self.target@,
    {
        ModifiedLine { source: self.source.clone(), target: self.target.clone() }
    }
}

impl Clone for MissingLine {
    fn clone(&self) -> (r: Self)
        ensures
            r.source@ == self.source@,
    {
        MissingLine { source: self.source.clone() }
    }
}

impl Clone for GarbageLine {
    fn clone(&self) -> (r: Self)
        ensures
            r.target@ == self.target@,
    {
        GarbageLine { target: self.target.clone() }
    }
}

impl Clone for MismatchLine {
    fn clone(&self) -> (r: Self)
        ensures
            r@ == self@,
    {
        match self {
            MismatchLine::Modified(m) => MismatchLine::Modified(m.clone()),
            MismatchLine::Missing(m) => MismatchLine::Missing(m.clone()),
            MismatchLine::Garbage(g) => MismatchLine::Garbage(g.clone()),
        }
    }
}

/// The views of a sequence of lines.
pub open spec fn line_views(s: Seq<Line>) -> Seq<LineView> {
    s.map_values(|l: Line| l@)
}

/// The views of a sequence of findings.
pub open spec fn mismatch_views(s: Seq<MismatchLine>) -> Seq<MismatchLineView> {
    s.map_values(|m: MismatchLine| m@)
}

/// The findings for one pair of files, in the order in which the comparison
/// met them.
#[derive(Clone, Debug)]
pub struct MismatchLines {
    pub source_path: String,
    pub target_path: String,
    pub lines: Vec<MismatchLine>,
}

/// A source file whose translation does not exist.
#[derive(Clone, Debug)]
pub struct MissingFile {
    pub source_path: String,
    pub target_path: String,
}

/// The outcome of comparing one source file with its translation.
#[derive(Clone, Debug)]
pub enum Mismatch {
    MissingFile(MissingFile),
    MismatchLines(MismatchLines),
}

/// The lines of one translation that have no counterpart in the source.
#[derive(Clone, Debug)]
pub struct TargetOnly {
    pub target_path: String,
    pub lines: Vec<Line>,
}

/// What a [`MismatchLines`] stands for.
pub struct MismatchLinesView {
    pub source_path: Seq<char>,
    pub target_path: Seq<char>,
    pub lines: Seq<MismatchLineView>,
}

impl View for MismatchLines {
    type V = MismatchLinesView;

    open spec fn view(&self) -> MismatchLinesView {
        MismatchLinesView {
            source_path: self.source_path@,
            target_path: self.target_path@,
            lines: mismatch_views(self.lines@),
        }
    }
}

/// What a [`MissingFile`] stands for.
pub struct MissingFileView {
    pub source_path: Seq<char>,
    pub target_path: Seq<char>,
}

impl View for MissingFile {
    type V = MissingFileView;

    open spec fn view(&self) -> MissingFileView {
        MissingFileView { source_path: self.source_path@, target_path: self.target_path@ }
    }
}

/// What a [`Mismatch`] stands for.
pub enum MismatchView {
    MissingFile(MissingFileView),
    MismatchLines(MismatchLinesView),
}

impl View for Mismatch {
    type V = MismatchView;

    open spec fn view(&self) -> MismatchView {
        match self {
            Mismatch::MissingFile(f) => MismatchView::MissingFile(f@),
            Mismatch::MismatchLines(l) => MismatchView::MismatchLines(l@),
        }
    }
}

/// What a [`TargetOnly`] stands for.
pub struct TargetOnlyView {
    pub target_path: Seq<char>,
    pub lines: Seq<LineView>,
}

impl View for TargetOnly {
    type V = TargetOnlyView;

    open spec fn view(&self) -> TargetOnlyView {
        TargetOnlyView { target_path: self.target_path@, lines: line_views(self.lines@) }
    }
}

/// The views of a sequence of outcomes.
pub open spec fn outcome_views(s: Seq<Mismatch>) -> Seq<MismatchView> {
    s.map_values(|m: Mismatch| m@)
}

/// The views of a sequence of records of lines without a counterpart.
pub open spec fn target_only_views(s: Seq<TargetOnly>) -> Seq<TargetOnlyView> {
    s.map_values(|t: TargetOnly| t@)
}

pub proof fn lemma_line_views_push(s: Seq<Line>, l: Line)
    ensures
        line_views(s.push(l)) == line_views(s).push(l@),
{
    assert(line_views(s.push(l)) =~= line_views(s).push(l@));
}

pub proof fn lemma_mismatch_views_push(s: Seq<MismatchLine>, m: MismatchLine)
    ensures
        mismatch_views(s.push(m)) == mismatch_views(s).push(m@),
{
    assert(mismatch_views(s.push(m)) =~= mismatch_views(s).push(m@));
}

} // verus!

verus! {

/// A bound on how much of a line must be shared, as the fraction
/// `numer / denom`. With `denom` zero no line passes.
#[derive(Clone, Copy, Debug)]
pub struct Threshold {
    pub numer: u64,
    pub denom: u64,
}

/// Why a pair of files could not be compared.
#[derive(Clone, Copy, Debug, PartialEq, Eq, Structural)]
pub enum MatchError {
    /// The source holds the beginning of a comment that never ends.
    MalformedInput,
    /// The two texts are too large to be lined up.
    TooLarge,
}

impl MatchError {
    /// The error in words.
    pub fn message(&self) -> (r: String)
        ensures
            r@ == match self {
                MatchError::MalformedInput => "Failed to parse markdown comment"@,
                MatchError::TooLarge => "Files are too large to compare"@,
            },
    {
        match self {
            MatchError::MalformedInput => "Failed to parse markdown comment".to_owned(),
            MatchError::TooLarge => "Files are too large to compare".to_owned(),
        }
    }
}

/// The settings of a comparison.
#[derive(Clone, Debug)]
pub struct Matcher {
    /// Undo the headers that a translation puts before lines of code.
    pub enable_code_comment_tweak: bool,
    /// The header that such a line starts with.
    pub code_comment_header: String,
    /// Keep what the source holds in comments, between the two markers below.
    pub keep_markdown_comment: bool,
    pub markdown_comment_begin: String,
    pub markdown_comment_end: String,
    /// How similar two lines must be to count as one line, edited.
    pub similar_threshold: Threshold,
}

} // verus!
