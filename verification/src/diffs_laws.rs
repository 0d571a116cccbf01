//! What holds of every edit script.

use vstd::prelude::*;
use crate::diffs::{
    both_count, ends_with_line_feed, lcs_len, left_side, paired_lines, script_lines, DiffItem,
};
use crate::text::lines_of;

verus! {

/// `a` can be had from `b` by leaving elements out.
pub open spec fn is_subsequence<T>(a: Seq<T>, b: Seq<T>) -> bool
    decreases b.len(),
{
    if a.len() == 0 {
        true
    } else if b.len() == 0 {
        false
    } else {
        (a.last() == b.last() && is_subsequence(a.drop_last(), b.drop_last())) || is_subsequence(
            a,
            b.drop_last(),
        )
    }
}

/// The number of steps that hold an element of the left input alone.
pub open spec fn left_count<T>(d: Seq<DiffItem<T>>) -> nat
    decreases d.len(),
{
    if d.len() == 0 {
        0
    } else if d.last() is Left {
        left_count(d.drop_last()) + 1
    } else {
        left_count(d.drop_last())
    }
}

/// No step holds an element of the left input alone.
pub open spec fn none_left<T>(d: Seq<DiffItem<T>>) -> bool {
    forall|i: int| 0 <= i < d.len() ==> !((#[trigger] d[i]) is Left)
}

/// Leaving out the last element of either sequence takes at most one from
/// the longest common subsequence, and adds nothing to it.
proof fn lemma_lcs_steps<T>(a: Seq<T>, b: Seq<T>)
    ensures
        b.len() > 0 ==> lcs_len(a, b.drop_last()) <= lcs_len(a, b) <= lcs_len(a, b.drop_last()) + 1,
        a.len() > 0 ==> lcs_len(a.drop_last(), b) <= lcs_len(a, b) <= lcs_len(a.drop_last(), b) + 1,
        lcs_len(a, b) <= a.len(),
    decreases a.len() + b.len(),
{
    if a.len() > 0 && b.len() > 0 {
        lemma_lcs_steps(a.drop_last(), b);
        lemma_lcs_steps(a, b.drop_last());
        lemma_lcs_steps(a.drop_last(), b.drop_last());
    } else if a.len() > 0 {
        lemma_lcs_steps(a.drop_last(), b);
    } else if b.len() > 0 {
        lemma_lcs_steps(a, b.drop_last());
    }
}

/// A sequence that can be had from another by leaving elements out is
/// their longest common subsequence.
pub proof fn lemma_subsequence_lcs<T>(a: Seq<T>, b: Seq<T>)
    requires
        is_subsequence(a, b),
    ensures
        lcs_len(a, b) == a.len(),
    decreases b.len(),
{
    lemma_lcs_steps(a, b);
    if a.len() > 0 && b.len() > 0 {
        if a.last() == b.last() && is_subsequence(a.drop_last(), b.drop_last()) {
            lemma_subsequence_lcs(a.drop_last(), b.drop_last());
        } else {
            lemma_subsequence_lcs(a, b.drop_last());
        }
    }
}

/// The left side of a script has one element for each step that pairs two
/// and for each step that holds an element of the left input alone.
pub proof fn lemma_left_side_count<T>(d: Seq<DiffItem<T>>)
    ensures
        left_side(d).len() == both_count(d) + left_count(d),
    decreases d.len(),
{
    if d.len() > 0 {
        lemma_left_side_count(d.drop_last());
    }
}

/// A script that counts no step with an element of the left input alone has
/// none.
pub proof fn lemma_none_left<T>(d: Seq<DiffItem<T>>)
    requires
        left_count(d) == 0,
    ensures
        none_left(d),
    decreases d.len(),
{
    if d.len() > 0 {
        lemma_none_left(d.drop_last());
        assert forall|i: int| 0 <= i < d.len() implies !((#[trigger] d[i]) is Left) by {
            if i < d.len() - 1 {
                assert(d.drop_last()[i] == d[i]);
            } else {
                assert(d[i] == d.last());
            }
        }
    }
}

/// Every line of `source` stands in `target`, in the same order: the lines
/// of `source` can be had from those of `target` by leaving lines out, and
/// `target` ends with a line feed if `source` does.
pub open spec fn covered(source: Seq<char>, target: Seq<char>) -> bool {
    is_subsequence(lines_of(source), lines_of(target)) && (ends_with_line_feed(source)
        ==> ends_with_line_feed(target))
}

/// A script that pairs as many lines as can be paired leaves no line of the
/// left text alone, where every line of the left text stands in the right
/// one in the same order.
pub proof fn lemma_covered_none_left(
    d: Seq<DiffItem<Seq<char>>>,
    source: Seq<char>,
    target: Seq<char>,
)
    requires
        left_side(d) == script_lines(source),
        both_count(d) == paired_lines(source, target),
        covered(source, target),
    ensures
        none_left(d),
{
    lemma_subsequence_lcs(lines_of(source), lines_of(target));
    lemma_left_side_count(d);
    lemma_none_left(d);
}

} // verus!
