//! What holds of every replay of findings against a translation.

use vstd::prelude::*;
use crate::fixer::{
    anchor, fixed, queues_of, sorted_by_anchor, upper_pos, with_line, Edit, Queues, Replay,
};
use crate::matcher::MismatchLineView;
use crate::text::{join_lines, lines_of};
use crate::util::{combined, CombinedLineView};

verus! {

proof fn lemma_run_no_findings(lines: Seq<Seq<char>>, n: int)
    requires
        0 <= n <= lines.len(),
    ensures
        ({
            let q = queues_of(Seq::<CombinedLineView>::empty());
            let st = Replay::run(q, lines, n);
            &&& st.text == join_lines(lines.take(n))
            &&& st.removed == Seq::<nat>::empty()
            &&& st.edits == Seq::<Edit>::empty()
            &&& st.modified == 0 && st.missing == 0 && st.garbage == 0
        }),
    decreases n,
{
    if n > 0 {
        lemma_run_no_findings(lines, n - 1);
        assert(lines.take(n).drop_last() =~= lines.take(n - 1));
        assert(lines.take(n).last() == lines[n - 1]);
    } else {
        assert(lines.take(0) =~= Seq::<Seq<char>>::empty());
    }
}

/// Without findings a translation is written back as it is, line by line,
/// each line ended by a line feed, and nothing is changed.
pub proof fn law_no_findings_no_change(target: Seq<char>)
    ensures
        fixed(target, Seq::<MismatchLineView>::empty()).0 == join_lines(lines_of(target)),
        fixed(target, Seq::<MismatchLineView>::empty()).1 == Seq::<Edit>::empty(),
{
    let lines = lines_of(target);
    lemma_run_no_findings(lines, lines.len() as int);
    assert(lines.take(lines.len() as int) =~= lines);
    assert(combined(Seq::<MismatchLineView>::empty()) =~= Seq::<CombinedLineView>::empty());
}

/// The anchors do not go down.
pub open spec fn anchors_sorted(s: Seq<CombinedLineView>) -> bool {
    forall|i: int, j: int|
        0 <= i <= j < s.len() ==> anchor(#[trigger] s[i]) <= anchor(#[trigger] s[j])
}

proof fn lemma_upper_pos(s: Seq<CombinedLineView>, key: nat, p: int)
    requires
        0 <= p <= s.len(),
    ensures
        p <= upper_pos(s, key, p) <= s.len(),
        forall|j: int| p <= j < upper_pos(s, key, p) ==> anchor(#[trigger] s[j]) <= key,
        upper_pos(s, key, p) < s.len() ==> anchor(s[upper_pos(s, key, p)]) > key,
    decreases s.len() - p,
{
    if p < s.len() && anchor(s[p]) <= key {
        lemma_upper_pos(s, key, p + 1);
    }
}

/// Ordering the findings by their anchors neither loses nor adds one, and
/// leaves them with anchors that do not go down.
pub proof fn law_sorted_by_anchor(c: Seq<CombinedLineView>)
    ensures
        anchors_sorted(sorted_by_anchor(c)),
        sorted_by_anchor(c).to_multiset() == c.to_multiset(),
    decreases c.len(),
{
    if c.len() > 0 {
        law_sorted_by_anchor(c.drop_last());
        let before = sorted_by_anchor(c.drop_last());
        let x = c.last();
        let p = upper_pos(before, anchor(x), 0);
        lemma_upper_pos(before, anchor(x), 0);
        let after = before.insert(p, x);
        assert forall|i: int, j: int| 0 <= i <= j < after.len() implies anchor(
            #[trigger] after[i],
        ) <= anchor(#[trigger] after[j]) by {
            if i < p {
                assert(after[i] == before[i]);
            } else if i > p {
                assert(after[i] == before[i - 1]);
            }
            if j < p {
                assert(after[j] == before[j]);
            } else if j > p {
                assert(after[j] == before[j - 1]);
                assert(anchor(before[p]) <= anchor(before[j - 1]));
            }
        }
        vstd::seq_lib::to_multiset_insert(before, p, x);
        vstd::seq_lib::to_multiset_build(c.drop_last(), x);
        assert(c.drop_last().push(x) =~= c);
        assert(after.to_multiset() =~= c.to_multiset());
    } else {
        assert(c =~= Seq::<CombinedLineView>::empty());
    }
}

/// A line that no finding at the head of its queue attaches to, and that is
/// not to be left out, is written as it is, and nothing else changes.
pub proof fn law_untouched_line_is_kept(q: Queues, st: Replay, number: nat, line: Seq<char>)
    requires
        !st.removed.contains(number),
        st.modified < q.modified.len() ==> q.modified[st.modified as int].1.number != number,
        st.missing < q.missing.len() && q.missing[st.missing as int].len() > 0
            ==> q.missing[st.missing as int][0].last_both != number,
        st.garbage < q.garbage.len() && q.garbage[st.garbage as int].len() > 0
            ==> q.garbage[st.garbage as int][0].number != number,
    ensures
        st.line(q, number, line) == (Replay {
            text: with_line(st.text, line),
            pushed: true,
            ..st
        }),
{
}

} // verus!
