//! Bringing a translation up to date: the findings of a comparison are
//! replayed against the text of the translation.

use vstd::prelude::*;
use vstd::string::StringExecFns;
use crate::matcher::{Line, LineView, Mismatch, MismatchLineView, MismatchLines, MismatchView};
use crate::text::{lines_of, push_range, rows, split_lines, to_chars};
use crate::util::{
    combine_line, combined, combined_views, ref_views, CombinedLine, CombinedLineView,
};

verus! {

/// Applies the findings of a comparison to the translation.
#[derive(Debug)]
pub struct Fixer {
    /// Only say what would be done.
    pub dry_run: bool,
}

/// What is done at a line of the translation.
#[derive(Clone, Copy, Debug, PartialEq, Eq, Structural)]
pub enum EditKind {
    /// The line is replaced by the source line it was made from.
    Modify,
    /// Missing source lines are put in after the line.
    Insert,
    /// The line, and the garbage that follows it, is taken out.
    Remove,
}

/// One change to the translation, at the line with the given number.
#[derive(Clone, Copy, Debug, PartialEq, Eq, Structural)]
pub struct Edit {
    pub kind: EditKind,
    pub number: usize,
}

/// One thing to do to the files of the translation.
#[derive(Clone, Debug)]
pub enum FixStep {
    /// Copy the source file to where its translation should be.
    Copy { source_path: String, target_path: String, write: bool },
    /// Rewrite the translation named by the outcome at `index`, with the
    /// text that [`Fixer::fix_lines`] gives for it.
    Rewrite { index: usize, write: bool },
}

/// What a [`FixStep`] stands for.
pub enum FixStepView {
    Copy { source_path: Seq<char>, target_path: Seq<char>, write: bool },
    Rewrite { index: usize, write: bool },
}

impl View for FixStep {
    type V = FixStepView;

    open spec fn view(&self) -> FixStepView {
        match self {
            FixStep::Copy { source_path, target_path, write } => FixStepView::Copy {
                source_path: source_path@,
                target_path: target_path@,
                write: *write,
            },
            FixStep::Rewrite { index, write } => FixStepView::Rewrite {
                index: *index,
                write: *write,
            },
        }
    }
}

/// The views of a sequence of steps.
pub open spec fn step_views(s: Seq<FixStep>) -> Seq<FixStepView> {
    s.map_values(|f: FixStep| f@)
}

/// The steps for the first `n` outcomes: a missing file is copied, a
/// translation with findings is rewritten, one without is left alone.
pub open spec fn planned(outcomes: Seq<MismatchView>, n: int, write: bool) -> Seq<FixStepView>
    decreases n,
{
    if n <= 0 {
        Seq::empty()
    } else {
        let before = planned(outcomes, n - 1, write);
        match outcomes[n - 1] {
            MismatchView::MissingFile(f) => before.push(
                FixStepView::Copy {
                    source_path: f.source_path,
                    target_path: f.target_path,
                    write,
                },
            ),
            MismatchView::MismatchLines(l) => if l.lines.len() > 0 {
                before.push(FixStepView::Rewrite { index: (n - 1) as usize, write })
            } else {
                before
            },
        }
    }
}

/// The line of the translation that a combined finding attaches to: the
/// edited line; the line after which the first missing line belongs; the first
/// garbage line.
pub open spec fn anchor(c: CombinedLineView) -> nat {
    match c {
        CombinedLineView::Modified { source, target } => target.number,
        CombinedLineView::Missing(run) => if run.len() > 0 {
            run[0].last_both
        } else {
            0
        },
        CombinedLineView::Garbage(run) => if run.len() > 0 {
            run[0].number
        } else {
            0
        },
    }
}

/// The first position at or after `p` whose anchor is greater than `key`,
/// or the length if there is none.
pub open spec fn upper_pos(s: Seq<CombinedLineView>, key: nat, p: int) -> int
    decreases s.len() - p,
{
    if p < 0 || p >= s.len() {
        s.len() as int
    } else if anchor(s[p]) > key {
        p
    } else {
        upper_pos(s, key, p + 1)
    }
}

/// The findings in the order of their anchors; findings with the same anchor
/// keep their order.
pub open spec fn sorted_by_anchor(c: Seq<CombinedLineView>) -> Seq<CombinedLineView>
    decreases c.len(),
{
    if c.len() == 0 {
        Seq::empty()
    } else {
        let before = sorted_by_anchor(c.drop_last());
        before.insert(upper_pos(before, anchor(c.last()), 0), c.last())
    }
}

/// The three kinds of findings, each in its order.
pub struct Queues {
    pub modified: Seq<(LineView, LineView)>,
    pub missing: Seq<Seq<LineView>>,
    pub garbage: Seq<Seq<LineView>>,
}

/// The findings `c`, by kind.
pub open spec fn queues_of(c: Seq<CombinedLineView>) -> Queues
    decreases c.len(),
{
    if c.len() == 0 {
        Queues { modified: Seq::empty(), missing: Seq::empty(), garbage: Seq::empty() }
    } else {
        let q = queues_of(c.drop_last());
        match c.last() {
            CombinedLineView::Modified { source, target } => Queues {
                modified: q.modified.push((source, target)),
                ..q
            },
            CombinedLineView::Missing(run) => Queues { missing: q.missing.push(run), ..q },
            CombinedLineView::Garbage(run) => Queues { garbage: q.garbage.push(run), ..q },
        }
    }
}

/// `text` with one more line.
pub open spec fn with_line(text: Seq<char>, line: Seq<char>) -> Seq<char> {
    text + line + seq!['\n']
}

/// `text` with the lines of `run`.
pub open spec fn with_lines(text: Seq<char>, run: Seq<LineView>) -> Seq<char>
    decreases run.len(),
{
    if run.len() == 0 {
        text
    } else {
        with_line(with_lines(text, run.drop_last()), run.last().content)
    }
}

/// `removed` with the numbers of the lines of `run` but the first.
pub open spec fn with_rest(removed: Seq<nat>, run: Seq<LineView>) -> Seq<nat> {
    removed + run.skip(1).map_values(|l: LineView| l.number)
}

/// The state of a replay.
pub struct Replay {
    /// How many edited lines have been written.
    pub modified: nat,
    /// How many runs of missing lines have been put in.
    pub missing: nat,
    /// How many runs of garbage have been met.
    pub garbage: nat,
    /// The numbers of the lines that are to be left out.
    pub removed: Seq<nat>,
    /// The text written so far.
    pub text: Seq<char>,
    /// The changes made so far.
    pub edits: Seq<Edit>,
    /// The line at hand has been written, or is to be left out.
    pub pushed: bool,
}

impl Replay {
    /// The state before the first line.
    pub open spec fn start() -> Replay {
        Replay {
            modified: 0,
            missing: 0,
            garbage: 0,
            removed: Seq::empty(),
            text: Seq::empty(),
            edits: Seq::empty(),
            pushed: false,
        }
    }

    /// If the next edited line is the line at hand, the source line is
    /// written in its place.
    pub open spec fn modify(self, q: Queues, number: nat) -> Replay {
        if self.modified < q.modified.len() && q.modified[self.modified as int].1.number
            == number {
            Replay {
                modified: self.modified + 1,
                text: with_line(self.text, q.modified[self.modified as int].0.content),
                edits: self.edits.push(Edit { kind: EditKind::Modify, number: number as usize }),
                pushed: true,
                ..self
            }
        } else {
            self
        }
    }

    /// If the next run of missing lines belongs after the line at hand, the
    /// line is written, unless it was already, and the run after it.
    pub open spec fn insert(self, q: Queues, number: nat, line: Seq<char>) -> Replay {
        if self.missing < q.missing.len() && q.missing[self.missing as int].len() > 0
            && q.missing[self.missing as int][0].last_both == number {
            let text = if self.pushed {
                self.text
            } else {
                with_line(self.text, line)
            };
            Replay {
                missing: self.missing + 1,
                text: with_lines(text, q.missing[self.missing as int]),
                edits: self.edits.push(Edit { kind: EditKind::Insert, number: number as usize }),
                pushed: true,
                ..self
            }
        } else {
            self
        }
    }

    /// If the next run of garbage starts with the line at hand, the line is
    /// not written and the rest of the run is to be left out.
    pub open spec fn remove(self, q: Queues, number: nat) -> Replay {
        if self.garbage < q.garbage.len() && q.garbage[self.garbage as int].len() > 0
            && q.garbage[self.garbage as int][0].number == number {
            Replay {
                garbage: self.garbage + 1,
                removed: with_rest(self.removed, q.garbage[self.garbage as int]),
                edits: self.edits.push(Edit { kind: EditKind::Remove, number: number as usize }),
                pushed: true,
                ..self
            }
        } else {
            self
        }
    }

    /// Writes the line at hand if nothing took its place.
    pub open spec fn keep(self, line: Seq<char>) -> Replay {
        if self.pushed {
            self
        } else {
            Replay { text: with_line(self.text, line), pushed: true, ..self }
        }
    }

    /// The state after the line with the given number. A line that is to be
    /// left out changes nothing. Else an edit comes before an insertion,
    /// and an insertion before a removal.
    pub open spec fn line(self, q: Queues, number: nat, line: Seq<char>) -> Replay {
        if self.removed.contains(number) {
            self
        } else {
            Replay { pushed: false, ..self }.modify(q, number).insert(q, number, line).remove(
                q,
                number,
            ).keep(line)
        }
    }

    /// The state after the first `n` lines.
    pub open spec fn run(q: Queues, lines: Seq<Seq<char>>, n: int) -> Replay
        decreases n,
    {
        if n <= 0 {
            Replay::start()
        } else {
            Replay::run(q, lines, n - 1).line(q, n as nat, lines[n - 1])
        }
    }
}

/// The translation `target` brought up to date with `findings`, and the
/// changes that this takes.
///
/// The findings are gathered and put in the order of their anchors. Then the
/// lines of the translation are written one by one, each ended by a line
/// feed, but for what the findings at the head of their queues say of the
/// line at hand.
pub open spec fn fixed(target: Seq<char>, findings: Seq<MismatchLineView>) -> (
    Seq<char>,
    Seq<Edit>,
) {
    let q = queues_of(sorted_by_anchor(combined(findings)));
    let lines = lines_of(target);
    let end = Replay::run(q, lines, lines.len() as int);
    (end.text, end.edits)
}

/// The views of a sequence of borrowed findings.
pub open spec fn borrowed_views(s: Seq<&CombinedLine>) -> Seq<CombinedLineView> {
    s.map_values(|c: &CombinedLine| c@)
}

/// The views of a queue of edited lines.
pub open spec fn pair_views(s: Seq<(&Line, &Line)>) -> Seq<(LineView, LineView)> {
    s.map_values(|p: (&Line, &Line)| (p.0@, p.1@))
}

/// The views of a queue of runs.
pub open spec fn run_views(s: Seq<&Vec<&Line>>) -> Seq<Seq<LineView>> {
    s.map_values(|r: &Vec<&Line>| ref_views(r@))
}

/// The numbers in a list of line numbers.
pub open spec fn nats(s: Seq<usize>) -> Seq<nat> {
    s.map_values(|x: usize| x as nat)
}

/// The line that a combined finding attaches to.
pub fn anchor_of(c: &CombinedLine) -> (k: usize)
    ensures
        k == anchor(c@),
{
    match c {
        CombinedLine::Modified((_, target)) => target.number,
        CombinedLine::Missing(run) => if run.len() > 0 {
            assert(ref_views(run@)[0] == run@[0]@);
            run[0].last_both
        } else {
            0
        },
        CombinedLine::Garbage(run) => if run.len() > 0 {
            assert(ref_views(run@)[0] == run@[0]@);
            run[0].number
        } else {
            0
        },
    }
}

/// The findings in the order of their anchors; findings with the same anchor
/// keep their order.
pub fn sort_by_anchor<'a, 'b>(lines: &'a Vec<CombinedLine<'b>>) -> (sorted: Vec<
    &'a CombinedLine<'b>,
>)
    ensures
        borrowed_views(sorted@) == sorted_by_anchor(combined_views(lines@)),
{
    let mut sorted: Vec<&'a CombinedLine<'b>> = Vec::new();
    let ghost all = combined_views(lines@);
    let mut i: usize = 0;
    assert(all.take(0) =~= Seq::empty());
    assert(borrowed_views(sorted@) =~= Seq::empty());
    while i < lines.len()
        invariant
            i <= lines.len(),
            all == combined_views(lines@),
            borrowed_views(sorted@) == sorted_by_anchor(all.take(i as int)),
        decreases lines.len() - i,
    {
        let item = &lines[i];
        let key = anchor_of(item);
        let ghost before = borrowed_views(sorted@);
        let mut p: usize = 0;
        while p < sorted.len() && anchor_of(sorted[p]) <= key
            invariant
                p <= sorted.len(),
                before == borrowed_views(sorted@),
                upper_pos(before, key as nat, 0) == upper_pos(before, key as nat, p as int),
            decreases sorted.len() - p,
        {
            assert(before[p as int] == sorted@[p as int]@);
            p += 1;
        }
        proof {
            if p < sorted.len() {
                assert(before[p as int] == sorted@[p as int]@);
            }
            assert(all.take(i + 1).drop_last() =~= all.take(i as int));
            assert(all.take(i + 1).last() == item@);
        }
        sorted.insert(p, item);
        assert(borrowed_views(sorted@) =~= before.insert(p as int, item@));
        i += 1;
    }
    assert(all.take(lines.len() as int) =~= all);
    sorted
}

/// Whether `number` is among `removed`.
fn is_removed(removed: &Vec<usize>, number: usize) -> (r: bool)
    ensures
        r == nats(removed@).contains(number as nat),
{
    let mut i: usize = 0;
    while i < removed.len()
        invariant
            i <= removed.len(),
            forall|j: int| 0 <= j < i ==> nats(removed@)[j] != number as nat,
        decreases removed.len() - i,
    {
        if removed[i] == number {
            assert(nats(removed@)[i as int] == number as nat);
            return true;
        }
        i += 1;
    }
    false
}

/// Appends the lines of `run`, each ended by a line feed.
fn push_lines(out: &mut String, run: &Vec<&Line>)
    ensures
        final(out)@ == with_lines(old(out)@, ref_views(run@)),
{
    let ghost all = ref_views(run@);
    let mut i: usize = 0;
    assert(all.take(0) =~= Seq::empty());
    while i < run.len()
        invariant
            i <= run.len(),
            all == ref_views(run@),
            out@ == with_lines(old(out)@, all.take(i as int)),
        decreases run.len() - i,
    {
        proof {
            assert(all.take(i + 1).drop_last() =~= all.take(i as int));
            assert(all.take(i + 1).last() == run@[i as int]@);
        }
        out.append(run[i].content.as_str());
        out.push('\n');
        i += 1;
    }
    assert(all.take(run.len() as int) =~= all);
}

/// Appends the numbers of the lines of `run` but the first.
fn push_rest(removed: &mut Vec<usize>, run: &Vec<&Line>)
    requires
        run.len() > 0,
    ensures
        nats(final(removed)@) == with_rest(nats(old(removed)@), ref_views(run@)),
{
    let ghost rest = ref_views(run@).skip(1).map_values(|l: LineView| l.number);
    let mut i: usize = 1;
    assert(nats(removed@) =~= nats(old(removed)@) + rest.take(0));
    while i < run.len()
        invariant
            1 <= i <= run.len(),
            rest == ref_views(run@).skip(1).map_values(|l: LineView| l.number),
            nats(removed@) == nats(old(removed)@) + rest.take(i - 1),
        decreases run.len() - i,
    {
        let ghost before = removed@;
        removed.push(run[i].number);
        assert(rest[i - 1] == run@[i as int]@.number);
        assert(nats(removed@) =~= nats(before).push(run@[i as int]@.number));
        assert(rest.take(i as int) =~= rest.take(i - 1).push(rest[i - 1]));
        i += 1;
    }
    assert(rest.take(run.len() - 1) =~= rest);
}

impl Fixer {
    /// Says what is to be done for each outcome of a comparison, in their
    /// order: a missing translation is copied from the source, a
    /// translation with findings is rewritten, one without is left alone. Each
    /// step says whether it is to be carried out or only announced.
    pub fn fix(&self, mismatches: &[Mismatch]) -> (plan: Vec<FixStep>)
        ensures
            step_views(plan@) == planned(
                crate::matcher::outcome_views(mismatches@),
                mismatches@.len() as int,
                !self.dry_run,
            ),
    {
        let write = !self.dry_run;
        let ghost all = crate::matcher::outcome_views(mismatches@);
        let mut plan: Vec<FixStep> = Vec::new();
        let mut i: usize = 0;
        assert(step_views(plan@) =~= Seq::empty());
        while i < mismatches.len()
            invariant
                i <= mismatches.len(),
                write == !self.dry_run,
                all == crate::matcher::outcome_views(mismatches@),
                step_views(plan@) == planned(all, i as int, write),
            decreases mismatches.len() - i,
        {
            let ghost before = plan@;
            assert(all[i as int] == mismatches@[i as int]@);
            match &mismatches[i] {
                Mismatch::MissingFile(x) => {
                    let step = FixStep::Copy {
                        source_path: x.source_path.clone(),
                        target_path: x.target_path.clone(),
                        write,
                    };
                    plan.push(step);
                    assert(step_views(plan@) =~= step_views(before).push(step@));
                },
                Mismatch::MismatchLines(x) => {
                    if x.lines.len() > 0 {
                        let step = FixStep::Rewrite { index: i, write };
                        plan.push(step);
                        assert(step_views(plan@) =~= step_views(before).push(step@));
                    }
                },
            }
            i += 1;
        }
        plan
    }

    /// Brings the text of a translation up to date with the findings for it.
    ///
    /// Returns the new text and the changes made, in the order of the lines
    /// they were made at.
    pub fn fix_lines(&self, mismatch: &MismatchLines, target: &str) -> (r: (String, Vec<Edit>))
        ensures
            r.0@ == fixed(target@, mismatch@.lines).0,
            r.1@ == fixed(target@, mismatch@.lines).1,
    {
        let combined = combine_line(mismatch);
        let sorted = sort_by_anchor(&combined);
        let ghost order = borrowed_views(sorted@);

        let mut modified: Vec<(&Line, &Line)> = Vec::new();
        let mut missing: Vec<&Vec<&Line>> = Vec::new();
        let mut garbage: Vec<&Vec<&Line>> = Vec::new();
        let mut k: usize = 0;
        assert(order.take(0) =~= Seq::empty());
        assert(pair_views(modified@) =~= Seq::empty());
        assert(run_views(missing@) =~= Seq::empty());
        assert(run_views(garbage@) =~= Seq::empty());
        while k < sorted.len()
            invariant
                k <= sorted.len(),
                order == borrowed_views(sorted@),
                queues_of(order.take(k as int)) == (Queues {
                    modified: pair_views(modified@),
                    missing: run_views(missing@),
                    garbage: run_views(garbage@),
                }),
            decreases sorted.len() - k,
        {
            proof {
                assert(order.take(k + 1).drop_last() =~= order.take(k as int));
                assert(order.take(k + 1).last() == sorted@[k as int]@);
            }
            let ghost m0 = modified@;
            let ghost s0 = missing@;
            let ghost g0 = garbage@;
            match sorted[k] {
                CombinedLine::Modified((s, t)) => {
                    modified.push((*s, *t));
                    assert(pair_views(modified@) =~= pair_views(m0).push((s@, t@)));
                },
                CombinedLine::Missing(run) => {
                    missing.push(run);
                    assert(run_views(missing@) =~= run_views(s0).push(ref_views(run@)));
                },
                CombinedLine::Garbage(run) => {
                    garbage.push(run);
                    assert(run_views(garbage@) =~= run_views(g0).push(ref_views(run@)));
                },
            }
            k += 1;
        }
        assert(order.take(sorted.len() as int) =~= order);
        let ghost q = queues_of(order);

        let text = to_chars(target);
        let lines = split_lines(&text);
        let ghost all = rows(lines@);
        let mut out = String::new();
        let mut edits: Vec<Edit> = Vec::new();
        let mut removed: Vec<usize> = Vec::new();
        let mut mi: usize = 0;
        let mut si: usize = 0;
        let mut gi: usize = 0;
        let mut i: usize = 0;
        let ghost mut st = Replay::start();
        assert(nats(removed@) =~= Seq::empty());
        while i < lines.len()
            invariant
                i <= lines.len(),
                all == rows(lines@),
                q == (Queues {
                    modified: pair_views(modified@),
                    missing: run_views(missing@),
                    garbage: run_views(garbage@),
                }),
                st == Replay::run(q, all, i as int),
                mi == st.modified,
                si == st.missing,
                gi == st.garbage,
                mi <= modified.len(),
                si <= missing.len(),
                gi <= garbage.len(),
                nats(removed@) == st.removed,
                out@ == st.text,
                edits@ == st.edits,
            decreases lines.len() - i,
        {
            let number: usize = i + 1;
            let line = &lines[i];
            assert(all[i as int] == line@);
            if is_removed(&removed, number) {
                proof {
                    st = st.line(q, number as nat, line@);
                }
                i += 1;
                continue ;
            }
            let mut pushed = false;
            let ghost mut cur = Replay { pushed: false, ..st };

            if mi < modified.len() {
                assert(q.modified[mi as int] == (modified@[mi as int].0@, modified@[mi as int].1@));
                if modified[mi].1.number == number {
                    out.append(modified[mi].0.content.as_str());
                    out.push('\n');
                    edits.push(Edit { kind: EditKind::Modify, number });
                    pushed = true;
                    mi += 1;
                }
            }
            proof {
                cur = cur.modify(q, number as nat);
            }
            assert(out@ =~= cur.text);

            if si < missing.len() {
                let run = missing[si];
                assert(q.missing[si as int] == ref_views(run@));
                if run.len() > 0 {
                    assert(ref_views(run@)[0] == run@[0]@);
                    if run[0].last_both == number {
                        if !pushed {
                            push_range(&mut out, line, 0, line.len());
                            out.push('\n');
                            pushed = true;
                            assert(line@.subrange(0, line.len() as int) =~= line@);
                            assert(out@ =~= with_line(cur.text, line@));
                        }
                        push_lines(&mut out, run);
                        edits.push(Edit { kind: EditKind::Insert, number });
                        si += 1;
                    }
                }
            }
            proof {
                cur = cur.insert(q, number as nat, line@);
            }
            assert(out@ =~= cur.text);

            if gi < garbage.len() {
                let run = garbage[gi];
                assert(q.garbage[gi as int] == ref_views(run@));
                if run.len() > 0 {
                    assert(ref_views(run@)[0] == run@[0]@);
                    if run[0].number == number {
                        pushed = true;
                        push_rest(&mut removed, run);
                        edits.push(Edit { kind: EditKind::Remove, number });
                        gi += 1;
                    }
                }
            }
            proof {
                cur = cur.remove(q, number as nat);
            }

            if !pushed {
                push_range(&mut out, line, 0, line.len());
                out.push('\n');
                assert(line@.subrange(0, line.len() as int) =~= line@);
            }
            proof {
                cur = cur.keep(line@);
                st = cur;
            }
            assert(out@ =~= st.text);
            i += 1;
        }
        (out, edits)
    }
}

} // verus!
