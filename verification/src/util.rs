//! Gathering findings that lie next to each other.

use vstd::prelude::*;
use crate::matcher::{Line, LineView, MismatchLine, MismatchLineView, MismatchLines, mismatch_views};

verus! {

/// A finding, or a run of findings of one kind on lines that follow each
/// other.
#[derive(Debug)]
pub enum CombinedLine<'a> {
    /// A source line and the line of the translation made from it.
    Modified((&'a Line, &'a Line)),
    /// Missing source lines whose numbers follow each other.
    Missing(Vec<&'a Line>),
    /// Garbage lines of the translation whose numbers follow each other.
    Garbage(Vec<&'a Line>),
}

/// What a [`CombinedLine`] stands for.
pub enum CombinedLineView {
    Modified { source: LineView, target: LineView },
    Missing(Seq<LineView>),
    Garbage(Seq<LineView>),
}

/// The views of a sequence of borrowed lines.
pub open spec fn ref_views(s: Seq<&Line>) -> Seq<LineView> {
    s.map_values(|l: &Line| l@)
}

impl<'a> View for CombinedLine<'a> {
    type V = CombinedLineView;

    open spec fn view(&self) -> CombinedLineView {
        match self {
            CombinedLine::Modified((s, t)) => CombinedLineView::Modified {
                source: s@,
                target: t@,
            },
            CombinedLine::Missing(v) => CombinedLineView::Missing(ref_views(v@)),
            CombinedLine::Garbage(v) => CombinedLineView::Garbage(ref_views(v@)),
        }
    }
}

/// The views of a sequence of combined findings.
pub open spec fn combined_views(s: Seq<CombinedLine>) -> Seq<CombinedLineView> {
    s.map_values(|c: CombinedLine| c@)
}

/// `line` follows directly on the last line of `run`.
pub open spec fn continues(run: Seq<LineView>, line: LineView) -> bool {
    run.len() > 0 && run.last().number + 1 == line.number
}

/// The state of gathering: what was put out, and the two runs that are
/// still open.
pub struct Gathering {
    pub lines: Seq<CombinedLineView>,
    /// The open run of missing source lines.
    pub missing: Seq<LineView>,
    /// The open run of garbage lines.
    pub garbage: Seq<LineView>,
}

impl Gathering {
    /// Puts out the open run of missing lines, if there is one.
    pub open spec fn close_missing(self) -> Gathering {
        if self.missing.len() > 0 {
            Gathering {
                lines: self.lines.push(CombinedLineView::Missing(self.missing)),
                missing: Seq::empty(),
                ..self
            }
        } else {
            self
        }
    }

    /// Puts out the open run of garbage lines, if there is one.
    pub open spec fn close_garbage(self) -> Gathering {
        if self.garbage.len() > 0 {
            Gathering {
                lines: self.lines.push(CombinedLineView::Garbage(self.garbage)),
                garbage: Seq::empty(),
                ..self
            }
        } else {
            self
        }
    }

    /// Takes one more finding. A modified line is put out at once. A missing
    /// or garbage line joins the open run of its kind if it follows on its
    /// last line; else that run is put out and the line starts a new one.
    pub open spec fn take(self, m: MismatchLineView) -> Gathering {
        match m {
            MismatchLineView::Modified { source, target } => Gathering {
                lines: self.lines.push(CombinedLineView::Modified { source, target }),
                ..self
            },
            MismatchLineView::Missing { source } => if continues(self.missing, source) {
                Gathering { missing: self.missing.push(source), ..self }
            } else {
                Gathering { missing: seq![source], ..self.close_missing() }
            },
            MismatchLineView::Garbage { target } => if continues(self.garbage, target) {
                Gathering { garbage: self.garbage.push(target), ..self }
            } else {
                Gathering { garbage: seq![target], ..self.close_garbage() }
            },
        }
    }

    /// The state after all of `s`.
    pub open spec fn run(s: Seq<MismatchLineView>) -> Gathering
        decreases s.len(),
    {
        if s.len() == 0 {
            Gathering { lines: Seq::empty(), missing: Seq::empty(), garbage: Seq::empty() }
        } else {
            Gathering::run(s.drop_last()).take(s.last())
        }
    }
}

/// The findings `s`, gathered: the runs that are open at the end are put
/// out last, the missing lines before the garbage.
pub open spec fn combined(s: Seq<MismatchLineView>) -> Seq<CombinedLineView> {
    Gathering::run(s).close_missing().close_garbage().lines
}

/// Whether `line` follows directly on the last line of `run`.
fn follows(run: &Vec<&Line>, line: &Line) -> (r: bool)
    ensures
        r == continues(ref_views(run@), line@),
{
    if run.len() == 0 {
        false
    } else {
        let last = run[run.len() - 1];
        assert(ref_views(run@).last() == last@);
        line.number > 0 && last.number == line.number - 1
    }
}

/// Gathers the findings of one pair of files: missing source lines whose
/// numbers follow each other become one run, and so do garbage lines.
pub fn combine_line<'a>(mismatch: &'a MismatchLines) -> (lines: Vec<CombinedLine<'a>>)
    ensures
        combined_views(lines@) == combined(mismatch@.lines),
{
    let mut lines: Vec<CombinedLine<'a>> = Vec::new();
    let mut source_neighbor: Vec<&'a Line> = Vec::new();
    let mut target_neighbor: Vec<&'a Line> = Vec::new();
    let ghost all = mismatch_views(mismatch.lines@);
    let mut i: usize = 0;
    assert(all.take(0) =~= Seq::empty());
    assert(combined_views(lines@) =~= Seq::empty());
    assert(ref_views(source_neighbor@) =~= Seq::empty());
    assert(ref_views(target_neighbor@) =~= Seq::empty());
    while i < mismatch.lines.len()
        invariant
            i <= mismatch.lines.len(),
            all == mismatch_views(mismatch.lines@),
            Gathering::run(all.take(i as int)) == (Gathering {
                lines: combined_views(lines@),
                missing: ref_views(source_neighbor@),
                garbage: ref_views(target_neighbor@),
            }),
        decreases mismatch.lines.len() - i,
    {
        let ghost before = lines@;
        let ghost missing = source_neighbor@;
        let ghost garbage = target_neighbor@;
        proof {
            assert(all.take(i + 1).drop_last() =~= all.take(i as int));
            assert(all.take(i + 1).last() == mismatch.lines@[i as int]@);
        }
        match &mismatch.lines[i] {
            MismatchLine::Modified(line) => {
                let c = CombinedLine::Modified((&line.source, &line.target));
                lines.push(c);
                assert(combined_views(lines@) =~= combined_views(before).push(c@));
            },
            MismatchLine::Missing(line) => {
                if follows(&source_neighbor, &line.source) {
                    source_neighbor.push(&line.source);
                    assert(ref_views(source_neighbor@) =~= ref_views(missing).push(line.source@));
                } else {
                    if source_neighbor.len() > 0 {
                        let c = CombinedLine::Missing(source_neighbor);
                        lines.push(c);
                        assert(combined_views(lines@) =~= combined_views(before).push(c@));
                    }
                    source_neighbor = Vec::new();
                    source_neighbor.push(&line.source);
                    assert(ref_views(source_neighbor@) =~= seq![line.source@]);
                }
            },
            MismatchLine::Garbage(line) => {
                if follows(&target_neighbor, &line.target) {
                    target_neighbor.push(&line.target);
                    assert(ref_views(target_neighbor@) =~= ref_views(garbage).push(line.target@));
                } else {
                    if target_neighbor.len() > 0 {
                        let c = CombinedLine::Garbage(target_neighbor);
                        lines.push(c);
                        assert(combined_views(lines@) =~= combined_views(before).push(c@));
                    }
                    target_neighbor = Vec::new();
                    target_neighbor.push(&line.target);
                    assert(ref_views(target_neighbor@) =~= seq![line.target@]);
                }
            },
        }
        i += 1;
    }
    assert(all.take(mismatch.lines.len() as int) =~= all);
    if source_neighbor.len() > 0 {
        let ghost before = lines@;
        let c = CombinedLine::Missing(source_neighbor);
        lines.push(c);
        assert(combined_views(lines@) =~= combined_views(before).push(c@));
    }
    if target_neighbor.len() > 0 {
        let ghost before = lines@;
        let c = CombinedLine::Garbage(target_neighbor);
        lines.push(c);
        assert(combined_views(lines@) =~= combined_views(before).push(c@));
    }
    lines
}

} // verus!
