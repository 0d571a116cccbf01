//! What holds of every block that is classified.

use vstd::prelude::*;
use crate::align_laws::{ascending_numbers, sorted_anchors};
use crate::matcher::{LineView, MismatchLineView, Threshold};
use crate::similar::{
    beats, best_upto, byte_len, candidate, common_chars, garbage_of, lemma_most_similar_bounds,
    most_similar, raised, resolved, resolved_from,
};

verus! {

/// The anchor of a missing line; nothing for another finding.
pub open spec fn missing_anchor(m: MismatchLineView) -> Option<nat> {
    match m {
        MismatchLineView::Missing { source } => Some(source.last_both),
        _ => None,
    }
}

/// The anchors of the missing lines among `s` do not go down.
pub open spec fn anchors_ascend(s: Seq<MismatchLineView>) -> bool {
    forall|i: int, j: int|
        0 <= i <= j < s.len() && missing_anchor(#[trigger] s[i]) is Some && missing_anchor(
            #[trigger] s[j],
        ) is Some ==> missing_anchor(s[i])->0 <= missing_anchor(s[j])->0
}

/// The anchors of the missing lines among `s` are at least `bound`.
pub open spec fn anchors_from(s: Seq<MismatchLineView>, bound: nat) -> bool {
    forall|i: int|
        0 <= i < s.len() && missing_anchor(#[trigger] s[i]) is Some ==> bound <= missing_anchor(
            s[i],
        )->0
}

proof fn lemma_anchors_concat(a: Seq<MismatchLineView>, b: Seq<MismatchLineView>, bound: nat)
    requires
        anchors_ascend(a),
        anchors_ascend(b),
        forall|i: int|
            0 <= i < a.len() && missing_anchor(#[trigger] a[i]) is Some ==> missing_anchor(a[i])->0
                <= bound,
        anchors_from(b, bound),
    ensures
        anchors_ascend(a + b),
{
    let s = a + b;
    assert forall|i: int, j: int|
        0 <= i <= j < s.len() && missing_anchor(#[trigger] s[i]) is Some && missing_anchor(
            #[trigger] s[j],
        ) is Some implies missing_anchor(s[i])->0 <= missing_anchor(s[j])->0 by {
        if j < a.len() {
            assert(s[i] == a[i] && s[j] == a[j]);
        } else if i >= a.len() {
            assert(s[i] == b[i - a.len()] && s[j] == b[j - a.len()]);
        } else {
            assert(s[i] == a[i] && s[j] == b[j - a.len()]);
        }
    }
}

proof fn lemma_garbage_of_no_missing(s: Seq<LineView>)
    ensures
        forall|i: int| 0 <= i < garbage_of(s).len() ==> missing_anchor(#[trigger] garbage_of(s)[i])
            is None,
{
}

proof fn lemma_resolved_from_anchors(
    lefts: Seq<LineView>,
    k: int,
    rights: Seq<LineView>,
    last: Option<nat>,
    th: Threshold,
)
    requires
        0 <= k <= lefts.len(),
        sorted_anchors(lefts),
        ascending_numbers(rights),
        last matches Some(x) ==> forall|j: int|
            0 <= j < rights.len() ==> x <= (#[trigger] rights[j]).number,
    ensures
        anchors_ascend(resolved_from(lefts, k, rights, last, th)),
        last matches Some(x) ==> anchors_from(resolved_from(lefts, k, rights, last, th), x),
        k < lefts.len() ==> anchors_from(
            resolved_from(lefts, k, rights, last, th),
            lefts[k].last_both,
        ),
    decreases lefts.len() - k,
{
    let r = resolved_from(lefts, k, rights, last, th);
    if k >= lefts.len() {
        lemma_garbage_of_no_missing(rights);
    } else {
        lemma_most_similar_bounds(lefts[k], rights, th);
        match most_similar(lefts[k], rights, th) {
            Some(i) => {
                let rest_rights = rights.skip(i + 1);
                let new_last = Some(rights[i].number);
                assert(ascending_numbers(rest_rights)) by {
                    assert forall|a: int, b: int| 0 <= a <= b < rest_rights.len() implies (
                    #[trigger] rest_rights[a]).number <= (#[trigger] rest_rights[b]).number by {
                        assert(rest_rights[a] == rights[a + i + 1]);
                        assert(rest_rights[b] == rights[b + i + 1]);
                    }
                }
                assert forall|j: int| 0 <= j < rest_rights.len() implies rights[i].number <= (
                #[trigger] rest_rights[j]).number by {
                    assert(rest_rights[j] == rights[j + i + 1]);
                }
                lemma_resolved_from_anchors(lefts, k + 1, rest_rights, new_last, th);
                let rest = resolved_from(lefts, k + 1, rest_rights, new_last, th);
                let head = garbage_of(rights.take(i)) + seq![
                    MismatchLineView::Modified { source: lefts[k], target: rights[i] },
                ];
                lemma_garbage_of_no_missing(rights.take(i));
                assert(forall|j: int|
                    0 <= j < head.len() ==> missing_anchor(#[trigger] head[j]) is None);
                lemma_anchors_concat(head, rest, rights[i].number);
                assert(r == head + rest);
                assert forall|j: int|
                    0 <= j < r.len() && missing_anchor(
                        #[trigger] r[j],
                    ) is Some implies rights[i].number <= missing_anchor(r[j])->0 by {
                    if j < head.len() {
                        assert(r[j] == head[j]);
                    } else {
                        assert(r[j] == rest[j - head.len()]);
                    }
                }
                if k + 1 < lefts.len() {
                    assert(lefts[k].last_both <= lefts[k + 1].last_both);
                }
                assert forall|j: int|
                    0 <= j < r.len() && missing_anchor(
                        #[trigger] r[j],
                    ) is Some implies lefts[k].last_both <= missing_anchor(r[j])->0 by {
                    if j < head.len() {
                        assert(r[j] == head[j]);
                    } else {
                        assert(r[j] == rest[j - head.len()]);
                        lemma_resolved_has_missing(lefts, k + 1, rest_rights, new_last, th, j - head.len());
                    }
                }
                if last is Some {
                    assert(last->0 <= rights[i].number);
                }
            },
            None => {
                lemma_resolved_from_anchors(lefts, k + 1, rights, last, th);
                let rest = resolved_from(lefts, k + 1, rights, last, th);
                let me = raised(lefts[k], last);
                let head = seq![MismatchLineView::Missing { source: me }];
                assert(r == head + rest);
                assert(anchors_from(rest, me.last_both)) by {
                    assert forall|j: int|
                        0 <= j < rest.len() && missing_anchor(
                            #[trigger] rest[j],
                        ) is Some implies me.last_both <= missing_anchor(rest[j])->0 by {
                        lemma_resolved_has_missing(lefts, k + 1, rights, last, th, j);
                        assert(lefts[k].last_both <= lefts[k + 1].last_both);
                    }
                }
                lemma_anchors_concat(head, rest, me.last_both);
                assert forall|j: int|
                    0 <= j < r.len() && missing_anchor(
                        #[trigger] r[j],
                    ) is Some implies me.last_both <= missing_anchor(r[j])->0 by {
                    if j < 1 {
                        assert(r[j] == head[j]);
                    } else {
                        assert(r[j] == rest[j - 1]);
                    }
                }
            },
        }
    }
}

/// A missing line among the findings from `k` on means that there is a
/// source line `k`.
proof fn lemma_resolved_has_missing(
    lefts: Seq<LineView>,
    k: int,
    rights: Seq<LineView>,
    last: Option<nat>,
    th: Threshold,
    j: int,
)
    requires
        0 <= k <= lefts.len(),
        0 <= j < resolved_from(lefts, k, rights, last, th).len(),
        missing_anchor(resolved_from(lefts, k, rights, last, th)[j]) is Some,
    ensures
        k < lefts.len(),
{
    if k >= lefts.len() {
        lemma_garbage_of_no_missing(rights);
    }
}

/// Candidate `i` is the partner of the source line: it is similar to it, it
/// scores higher than every similar candidate before it, and no similar
/// candidate after it scores higher.
pub open spec fn is_best(source: LineView, targets: Seq<LineView>, th: Threshold, i: int) -> bool {
    &&& 0 <= i < targets.len()
    &&& candidate(source, targets, th, i)
    &&& forall|j: int|
        0 <= j < i && #[trigger] candidate(source, targets, th, j) ==> beats(source, targets, i, j)
    &&& forall|j: int|
        i < j < targets.len() && #[trigger] candidate(source, targets, th, j) ==> !beats(
            source,
            targets,
            j,
            i,
        )
}

proof fn lemma_order_chain(n1: int, d1: int, n2: int, d2: int, n3: int, d3: int)
    requires
        d1 > 0,
        d2 > 0,
        d3 > 0,
        n1 * d2 > n2 * d1,
        n2 * d3 >= n3 * d2,
    ensures
        n1 * d3 > n3 * d1,
{
    assert((n1 * d2) * d3 > (n2 * d1) * d3) by (nonlinear_arith)
        requires
            n1 * d2 > n2 * d1,
            d3 > 0,
    ;
    assert((n2 * d3) * d1 >= (n3 * d2) * d1) by (nonlinear_arith)
        requires
            n2 * d3 >= n3 * d2,
            d1 > 0,
    ;
    assert((n2 * d1) * d3 == (n2 * d3) * d1) by (nonlinear_arith);
    assert((n1 * d2) * d3 == (n1 * d3) * d2) by (nonlinear_arith);
    assert((n3 * d2) * d1 == (n3 * d1) * d2) by (nonlinear_arith);
    assert(n1 * d3 > n3 * d1) by (nonlinear_arith)
        requires
            (n1 * d3) * d2 > (n3 * d1) * d2,
            d2 > 0,
    ;
}

/// With two similar candidates `b` and `j`: if `i` scores higher than `b`
/// and `j` does not, then `i` scores higher than `j`.
proof fn lemma_beats_chain(source: LineView, targets: Seq<LineView>, th: Threshold, i: int, b: int, j: int)
    requires
        candidate(source, targets, th, i),
        candidate(source, targets, th, b),
        candidate(source, targets, th, j),
        beats(source, targets, i, b),
        !beats(source, targets, j, b),
    ensures
        beats(source, targets, i, j),
{
    let ls = byte_len(source.content) as int;
    let ci = common_chars(source.content, targets[i].content) as int;
    let cb = common_chars(source.content, targets[b].content) as int;
    let cj = common_chars(source.content, targets[j].content) as int;
    let di = byte_len(targets[i].content) as int;
    let db = byte_len(targets[b].content) as int;
    let dj = byte_len(targets[j].content) as int;
    lemma_order_chain(ci * (ls + di), di, cb * (ls + db), db, cj * (ls + dj), dj);
}

proof fn lemma_best_upto_is_best(source: LineView, targets: Seq<LineView>, th: Threshold, n: int)
    requires
        0 <= n <= targets.len(),
    ensures
        match best_upto(source, targets, th, n) {
            Some(b) => {
                &&& 0 <= b < n
                &&& candidate(source, targets, th, b)
                &&& forall|j: int|
                    0 <= j < b && #[trigger] candidate(source, targets, th, j) ==> beats(
                        source,
                        targets,
                        b,
                        j,
                    )
                &&& forall|j: int|
                    b < j < n && #[trigger] candidate(source, targets, th, j) ==> !beats(
                        source,
                        targets,
                        j,
                        b,
                    )
            },
            None => forall|j: int| 0 <= j < n ==> !#[trigger] candidate(source, targets, th, j),
        },
    decreases n,
{
    if n > 0 {
        lemma_best_upto_is_best(source, targets, th, n - 1);
        let i = n - 1;
        match best_upto(source, targets, th, n - 1) {
            Some(b) => {
                if candidate(source, targets, th, i) && beats(source, targets, i, b) {
                    assert forall|j: int|
                        0 <= j < i && #[trigger] candidate(source, targets, th, j) implies beats(
                        source,
                        targets,
                        i,
                        j,
                    ) by {
                        if j < b {
                            // `b` scores higher than `j`, so `j` does not
                            // score higher than `b`
                            lemma_beats_asymmetric(source, targets, b, j);
                            lemma_beats_chain(source, targets, th, i, b, j);
                        } else if j > b {
                            lemma_beats_chain(source, targets, th, i, b, j);
                        }
                    }
                }
            },
            None => {},
        }
    }
}

/// Of two candidates only one scores higher than the other.
proof fn lemma_beats_asymmetric(source: LineView, targets: Seq<LineView>, i: int, j: int)
    requires
        beats(source, targets, i, j),
    ensures
        !beats(source, targets, j, i),
{
}

/// The partner of a source line is the similar candidate with the highest
/// score, and the first of those with that score; there is none exactly if no
/// candidate is similar.
pub proof fn law_most_similar_is_best(source: LineView, targets: Seq<LineView>, th: Threshold)
    ensures
        match most_similar(source, targets, th) {
            Some(i) => is_best(source, targets, th, i),
            None => forall|j: int|
                0 <= j < targets.len() ==> !#[trigger] candidate(source, targets, th, j),
        },
{
    lemma_best_upto_is_best(source, targets, th, targets.len() as int);
}

/// Within a block, the place where a missing line belongs never lies before
/// the place of a missing line that comes earlier. It holds of a block whose
/// source lines have anchors that do not go down and whose lines of the
/// translation have numbers that do not go down.
pub proof fn law_missing_anchors_ascend(
    lefts: Seq<LineView>,
    rights: Seq<LineView>,
    th: Threshold,
)
    requires
        sorted_anchors(lefts),
        ascending_numbers(rights),
    ensures
        anchors_ascend(resolved(lefts, rights, th)),
{
    lemma_resolved_from_anchors(lefts, 0, rights, None, th);
}

/// Two classifications of one block are the same: whatever meets the
/// contract of `resolve` for a block is the one sequence of findings that the
/// block determines.
pub proof fn law_resolve_deterministic(
    lefts: Seq<LineView>,
    rights: Seq<LineView>,
    th: Threshold,
    first: Seq<MismatchLineView>,
    second: Seq<MismatchLineView>,
)
    requires
        first == resolved(lefts, rights, th),
        second == resolved(lefts, rights, th),
    ensures
        first == second,
{
}

/// A block without source lines yields its marked lines as garbage, all of
/// them, in their order, and nothing else.
pub proof fn law_marked_lines_are_garbage(rights: Seq<LineView>, th: Threshold)
    ensures
        resolved(Seq::<LineView>::empty(), rights, th) == garbage_of(rights),
{
}

/// The number of the line of the translation that an edited line was made
/// into; nothing for another finding.
pub open spec fn modified_number(m: MismatchLineView) -> Option<nat> {
    match m {
        MismatchLineView::Modified { source, target } => Some(target.number),
        _ => None,
    }
}

/// No missing line among `s` belongs after `top`, and no edited line stands
/// after it.
pub open spec fn places_upto(s: Seq<MismatchLineView>, top: nat) -> bool {
    forall|i: int|
        0 <= i < s.len() ==> (missing_anchor(#[trigger] s[i]) matches Some(a) ==> a <= top) && (
        modified_number(s[i]) matches Some(n) ==> n <= top)
}

/// A missing line that comes after an edited line belongs at that line or
/// after it.
pub open spec fn missing_follow_edits(s: Seq<MismatchLineView>) -> bool {
    forall|i: int, j: int|
        0 <= i < j < s.len() && modified_number(#[trigger] s[i]) is Some && missing_anchor(
            #[trigger] s[j],
        ) is Some ==> modified_number(s[i])->0 <= missing_anchor(s[j])->0
}

proof fn lemma_garbage_of_no_places(s: Seq<LineView>)
    ensures
        forall|i: int|
            0 <= i < garbage_of(s).len() ==> missing_anchor(#[trigger] garbage_of(s)[i]) is None
                && modified_number(garbage_of(s)[i]) is None,
{
}

proof fn lemma_resolved_from_upto(
    lefts: Seq<LineView>,
    k: int,
    rights: Seq<LineView>,
    last: Option<nat>,
    th: Threshold,
    top: nat,
)
    requires
        0 <= k <= lefts.len(),
        forall|i: int| 0 <= i < lefts.len() ==> (#[trigger] lefts[i]).last_both <= top,
        forall|j: int| 0 <= j < rights.len() ==> (#[trigger] rights[j]).number <= top,
        last matches Some(x) ==> x <= top,
    ensures
        places_upto(resolved_from(lefts, k, rights, last, th), top),
    decreases lefts.len() - k,
{
    let r = resolved_from(lefts, k, rights, last, th);
    if k >= lefts.len() {
        lemma_garbage_of_no_places(rights);
    } else {
        lemma_most_similar_bounds(lefts[k], rights, th);
        match most_similar(lefts[k], rights, th) {
            Some(i) => {
                let rest_rights = rights.skip(i + 1);
                assert forall|j: int| 0 <= j < rest_rights.len() implies (
                #[trigger] rest_rights[j]).number <= top by {
                    assert(rest_rights[j] == rights[j + i + 1]);
                }
                lemma_resolved_from_upto(lefts, k + 1, rest_rights, Some(rights[i].number), th, top);
                let rest = resolved_from(lefts, k + 1, rest_rights, Some(rights[i].number), th);
                let junk = garbage_of(rights.take(i));
                lemma_garbage_of_no_places(rights.take(i));
                let head = junk + seq![
                    MismatchLineView::Modified { source: lefts[k], target: rights[i] },
                ];
                assert(r == head + rest);
                assert forall|j: int| 0 <= j < r.len() implies (missing_anchor(
                    #[trigger] r[j],
                ) matches Some(a) ==> a <= top) && (modified_number(r[j]) matches Some(n) ==> n
                    <= top) by {
                    if j < junk.len() {
                        assert(r[j] == junk[j]);
                    } else if j < head.len() {
                        assert(r[j] == head[j]);
                    } else {
                        assert(r[j] == rest[j - head.len()]);
                    }
                }
            },
            None => {
                lemma_resolved_from_upto(lefts, k + 1, rights, last, th, top);
                let rest = resolved_from(lefts, k + 1, rights, last, th);
                let head = seq![MismatchLineView::Missing { source: raised(lefts[k], last) }];
                assert(r == head + rest);
                assert forall|j: int| 0 <= j < r.len() implies (missing_anchor(
                    #[trigger] r[j],
                ) matches Some(a) ==> a <= top) && (modified_number(r[j]) matches Some(n) ==> n
                    <= top) by {
                    if j < 1 {
                        assert(r[j] == head[j]);
                    } else {
                        assert(r[j] == rest[j - 1]);
                    }
                }
            },
        }
    }
}

proof fn lemma_resolved_from_follow(
    lefts: Seq<LineView>,
    k: int,
    rights: Seq<LineView>,
    last: Option<nat>,
    th: Threshold,
)
    requires
        0 <= k <= lefts.len(),
        sorted_anchors(lefts),
        ascending_numbers(rights),
        last matches Some(x) ==> forall|j: int|
            0 <= j < rights.len() ==> x <= (#[trigger] rights[j]).number,
    ensures
        missing_follow_edits(resolved_from(lefts, k, rights, last, th)),
    decreases lefts.len() - k,
{
    let r = resolved_from(lefts, k, rights, last, th);
    if k >= lefts.len() {
        lemma_garbage_of_no_places(rights);
    } else {
        lemma_most_similar_bounds(lefts[k], rights, th);
        match most_similar(lefts[k], rights, th) {
            Some(i) => {
                let rest_rights = rights.skip(i + 1);
                let new_last = Some(rights[i].number);
                assert(ascending_numbers(rest_rights)) by {
                    assert forall|a: int, b: int| 0 <= a <= b < rest_rights.len() implies (
                    #[trigger] rest_rights[a]).number <= (#[trigger] rest_rights[b]).number by {
                        assert(rest_rights[a] == rights[a + i + 1]);
                        assert(rest_rights[b] == rights[b + i + 1]);
                    }
                }
                assert forall|j: int| 0 <= j < rest_rights.len() implies rights[i].number <= (
                #[trigger] rest_rights[j]).number by {
                    assert(rest_rights[j] == rights[j + i + 1]);
                }
                lemma_resolved_from_follow(lefts, k + 1, rest_rights, new_last, th);
                lemma_resolved_from_anchors(lefts, k + 1, rest_rights, new_last, th);
                let rest = resolved_from(lefts, k + 1, rest_rights, new_last, th);
                let junk = garbage_of(rights.take(i));
                lemma_garbage_of_no_places(rights.take(i));
                let head = junk + seq![
                    MismatchLineView::Modified { source: lefts[k], target: rights[i] },
                ];
                assert(r == head + rest);
                assert forall|a: int, b: int|
                    0 <= a < b < r.len() && modified_number(#[trigger] r[a]) is Some
                        && missing_anchor(
                        #[trigger] r[b],
                    ) is Some implies modified_number(r[a])->0 <= missing_anchor(r[b])->0 by {
                    if b < junk.len() {
                        assert(r[b] == junk[b]);
                    } else if b < head.len() {
                        assert(r[b] == head[b]);
                    } else {
                        assert(r[b] == rest[b - head.len()]);
                        if a < junk.len() {
                            assert(r[a] == junk[a]);
                        } else if a < head.len() {
                            assert(r[a] == head[a]);
                        } else {
                            assert(r[a] == rest[a - head.len()]);
                        }
                    }
                }
            },
            None => {
                lemma_resolved_from_follow(lefts, k + 1, rights, last, th);
                let rest = resolved_from(lefts, k + 1, rights, last, th);
                let head = seq![MismatchLineView::Missing { source: raised(lefts[k], last) }];
                assert(r == head + rest);
                assert forall|a: int, b: int|
                    0 <= a < b < r.len() && modified_number(#[trigger] r[a]) is Some
                        && missing_anchor(
                        #[trigger] r[b],
                    ) is Some implies modified_number(r[a])->0 <= missing_anchor(r[b])->0 by {
                    assert(r[b] == rest[b - 1]);
                    if a < 1 {
                        assert(r[a] == head[a]);
                    } else {
                        assert(r[a] == rest[a - 1]);
                    }
                }
            },
        }
    }
}

/// What holds of the findings of a block whose lines are in the order of
/// their files: the anchors of its missing lines do not go down, a missing
/// line after an edited line belongs at that line or after it, no missing
/// line belongs before the first source line of the block does, and none of
/// it reaches beyond `top` if no line of the block does.
pub proof fn lemma_resolved_places(
    lefts: Seq<LineView>,
    rights: Seq<LineView>,
    th: Threshold,
    top: nat,
)
    requires
        sorted_anchors(lefts),
        ascending_numbers(rights),
        forall|i: int| 0 <= i < lefts.len() ==> (#[trigger] lefts[i]).last_both <= top,
        forall|j: int| 0 <= j < rights.len() ==> (#[trigger] rights[j]).number <= top,
    ensures
        anchors_ascend(resolved(lefts, rights, th)),
        missing_follow_edits(resolved(lefts, rights, th)),
        places_upto(resolved(lefts, rights, th), top),
        lefts.len() > 0 ==> anchors_from(resolved(lefts, rights, th), lefts[0].last_both),
        lefts.len() == 0 ==> forall|i: int|
            0 <= i < resolved(lefts, rights, th).len() ==> missing_anchor(
                #[trigger] resolved(lefts, rights, th)[i],
            ) is None && modified_number(resolved(lefts, rights, th)[i]) is None,
{
    lemma_resolved_from_anchors(lefts, 0, rights, None, th);
    lemma_resolved_from_follow(lefts, 0, rights, None, th);
    lemma_resolved_from_upto(lefts, 0, rights, None, th, top);
    if lefts.len() == 0 {
        lemma_garbage_of_no_places(rights);
    }
}

} // verus!
