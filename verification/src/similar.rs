//! Pairing the source lines of a block with the lines of the translation
//! that were made from them.

use vstd::prelude::*;
use vstd::slice::slice_subrange;
use vstd::utf8::encode_utf8;
use crate::align::flagged_only;
use vstd::string::StrSliceExecFns;
use crate::diffs::{char_diff, chars_diff, diff_fits, fits, lemma_diff_fits_smaller, DiffItem};
use crate::matcher::{
    lemma_mismatch_views_push, line_views, mismatch_views, GarbageLine, Line, LineView, Matcher,
    MismatchLine, MismatchLineView, MissingLine, ModifiedLine, Threshold,
};

verus! {

/// The number of steps of a script that pair two characters.
pub open spec fn common_count(d: Seq<DiffItem<char>>) -> nat
    decreases d.len(),
{
    if d.len() == 0 {
        0
    } else if d.last() is Both {
        common_count(d.drop_last()) + 1
    } else {
        common_count(d.drop_last())
    }
}

/// The number of characters that two texts share when lined up.
pub open spec fn common_chars(a: Seq<char>, b: Seq<char>) -> nat {
    common_count(char_diff(a, b))
}

/// The length of a text in bytes, as the machine counts it.
pub open spec fn byte_len(s: Seq<char>) -> nat {
    (encode_utf8(s).len() as usize) as nat
}

/// `common / len` is greater than the threshold.
pub open spec fn over_threshold(common: nat, len: nat, th: Threshold) -> bool {
    len > 0 && common * th.denom > th.numer * len
}

/// Two lines of `ls` and `lt` bytes that share `common` characters are
/// similar: the shared part is more than the threshold of either.
pub open spec fn qualifies(common: nat, ls: nat, lt: nat, th: Threshold) -> bool {
    over_threshold(common, ls, th) && over_threshold(common, lt, th)
}

/// With a source line of `ls` bytes, a candidate of `lt1` bytes that shares
/// `c1` characters scores higher than one of `lt2` bytes that shares `c2`,
/// where the score of a candidate is `c / ls + c / lt`.
pub open spec fn scores_higher(c1: nat, lt1: nat, c2: nat, lt2: nat, ls: nat) -> bool {
    c1 * (ls + lt1) * lt2 > c2 * (ls + lt2) * lt1
}

/// Whether candidate `i` is similar to the source line.
pub open spec fn candidate(source: LineView, targets: Seq<LineView>, th: Threshold, i: int) -> bool {
    qualifies(
        common_chars(source.content, targets[i].content),
        byte_len(source.content),
        byte_len(targets[i].content),
        th,
    )
}

/// Whether candidate `i` scores higher than candidate `j`.
pub open spec fn beats(source: LineView, targets: Seq<LineView>, i: int, j: int) -> bool {
    scores_higher(
        common_chars(source.content, targets[i].content),
        byte_len(targets[i].content),
        common_chars(source.content, targets[j].content),
        byte_len(targets[j].content),
        byte_len(source.content),
    )
}

/// The best of the first `n` candidates, each given by the number of
/// characters it shares with the source line and by its length: the similar
/// one with the highest score, the earliest of them where several score the
/// same. `ls` is the length of the source line.
pub open spec fn picked_upto(ls: nat, counts: Seq<(nat, nat)>, th: Threshold, n: int) -> Option<int>
    decreases n,
{
    if n <= 0 {
        None
    } else {
        let prev = picked_upto(ls, counts, th, n - 1);
        let (c, lt) = counts[n - 1];
        let better = match prev {
            None => true,
            Some(j) => scores_higher(c, lt, counts[j].0, counts[j].1, ls),
        };
        if qualifies(c, ls, lt, th) && better {
            Some(n - 1)
        } else {
            prev
        }
    }
}

/// The candidate that is picked, if any.
pub open spec fn picked(ls: nat, counts: Seq<(nat, nat)>, th: Threshold) -> Option<int> {
    picked_upto(ls, counts, th, counts.len() as int)
}

/// For each candidate, the number of characters it shares with the source
/// line, and its length.
pub open spec fn counts_of(source: LineView, targets: Seq<LineView>) -> Seq<(nat, nat)> {
    Seq::new(
        targets.len(),
        |i: int| (common_chars(source.content, targets[i].content), byte_len(targets[i].content)),
    )
}

/// The counts as numbers without bound.
pub open spec fn count_views(counts: Seq<(usize, usize)>) -> Seq<(nat, nat)> {
    counts.map_values(|p: (usize, usize)| (p.0 as nat, p.1 as nat))
}

/// The best of the first `n` candidates for the source line.
pub open spec fn best_upto(source: LineView, targets: Seq<LineView>, th: Threshold, n: int) -> Option<
    int,
> {
    picked_upto(byte_len(source.content), counts_of(source, targets), th, n)
}

/// The candidate that the source line is paired with, if any.
pub open spec fn most_similar(source: LineView, targets: Seq<LineView>, th: Threshold) -> Option<
    int,
> {
    picked(byte_len(source.content), counts_of(source, targets), th)
}

/// The marked lines among `s`, each as a finding.
pub open spec fn garbage_of(s: Seq<LineView>) -> Seq<MismatchLineView> {
    flagged_only(s).map_values(|l: LineView| MismatchLineView::Garbage { target: l })
}

/// The source line with its anchor raised to the last paired line of the
/// translation, if there is one and it lies further down.
pub open spec fn raised(source: LineView, last: Option<nat>) -> LineView {
    match last {
        Some(x) if x > source.last_both => LineView { last_both: x, ..source },
        _ => source,
    }
}

/// The findings for the source lines from `k` on, against the candidates
/// that are left.
pub open spec fn resolved_from(
    lefts: Seq<LineView>,
    k: int,
    rights: Seq<LineView>,
    last: Option<nat>,
    th: Threshold,
) -> Seq<MismatchLineView>
    decreases lefts.len() - k,
{
    if k < 0 || k >= lefts.len() {
        garbage_of(rights)
    } else {
        match most_similar(lefts[k], rights, th) {
            Some(i) => garbage_of(rights.take(i)) + seq![
                MismatchLineView::Modified { source: lefts[k], target: rights[i] },
            ] + resolved_from(lefts, k + 1, rights.skip(i + 1), Some(rights[i].number), th),
            None => seq![MismatchLineView::Missing { source: raised(lefts[k], last) }]
                + resolved_from(lefts, k + 1, rights, last, th),
        }
    }
}

/// The findings of a block. Each source line in turn is paired with the most
/// similar of the candidates that are left; the candidates before its
/// partner leave, the marked ones among them as garbage. A source line
/// without a partner is missing. The marked candidates that are left at the
/// end are garbage.
pub open spec fn resolved(lefts: Seq<LineView>, rights: Seq<LineView>, th: Threshold) -> Seq<
    MismatchLineView,
> {
    resolved_from(lefts, 0, rights, None, th)
}

/// The source line can be lined up with every candidate.
pub open spec fn line_fits(source: LineView, targets: Seq<LineView>) -> bool {
    forall|j: int|
        0 <= j < targets.len() ==> diff_fits(
            source.content.len(),
            (#[trigger] targets[j]).content.len(),
        )
}

/// Every source line can be lined up with every candidate.
pub open spec fn block_fits(lefts: Seq<LineView>, rights: Seq<LineView>) -> bool {
    forall|i: int, j: int|
        0 <= i < lefts.len() && 0 <= j < rights.len() ==> diff_fits(
            (#[trigger] lefts[i]).content.len(),
            (#[trigger] rights[j]).content.len(),
        )
}

proof fn lemma_best_upto_bounds(source: LineView, targets: Seq<LineView>, th: Threshold, n: int)
    requires
        n <= targets.len(),
    ensures
        best_upto(source, targets, th, n) matches Some(i) ==> 0 <= i < n,
    decreases n,
{
    if n > 0 {
        lemma_best_upto_bounds(source, targets, th, n - 1);
    }
}

/// The partner of a source line is one of the candidates.
pub proof fn lemma_most_similar_bounds(source: LineView, targets: Seq<LineView>, th: Threshold)
    ensures
        most_similar(source, targets, th) matches Some(i) ==> 0 <= i < targets.len(),
{
    lemma_best_upto_bounds(source, targets, th, targets.len() as int);
}

proof fn lemma_products_fit(a: int, b: int)
    requires
        0 <= a <= u64::MAX,
        0 <= b <= u64::MAX,
    ensures
        0 <= a * b <= u128::MAX - u64::MAX,
{
    assert(0 <= a * b <= 0xffff_ffff_ffff_ffff * 0xffff_ffff_ffff_ffff) by (nonlinear_arith)
        requires
            0 <= a <= 0xffff_ffff_ffff_ffff,
            0 <= b <= 0xffff_ffff_ffff_ffff,
    ;
}

proof fn lemma_score_order(
    c1: int,
    lt1: int,
    c2: int,
    lt2: int,
    ls: int,
    q1: int,
    r1: int,
    q2: int,
    r2: int,
)
    requires
        0 < lt1,
        0 < lt2,
        c1 * ls == q1 * lt1 + r1,
        0 <= r1 < lt1,
        c2 * ls == q2 * lt2 + r2,
        0 <= r2 < lt2,
    ensures
        (c1 * (ls + lt1) * lt2 > c2 * (ls + lt2) * lt1) == (c1 + q1 > c2 + q2 || (c1 + q1 == c2
            + q2 && r1 * lt2 > r2 * lt1)),
{
    let i1 = c1 + q1;
    let i2 = c2 + q2;
    let p = lt1 * lt2;
    assert(c1 * (ls + lt1) * lt2 == i1 * p + r1 * lt2) by (nonlinear_arith)
        requires
            c1 * ls == q1 * lt1 + r1,
            i1 == c1 + q1,
            p == lt1 * lt2,
    ;
    assert(c2 * (ls + lt2) * lt1 == i2 * p + r2 * lt1) by (nonlinear_arith)
        requires
            c2 * ls == q2 * lt2 + r2,
            i2 == c2 + q2,
            p == lt1 * lt2,
    ;
    assert(0 <= r1 * lt2 < p) by (nonlinear_arith)
        requires
            0 <= r1 < lt1,
            0 < lt2,
            p == lt1 * lt2,
    ;
    assert(0 <= r2 * lt1 < p) by (nonlinear_arith)
        requires
            0 <= r2 < lt2,
            0 < lt1,
            p == lt1 * lt2,
    ;
    if i1 > i2 {
        assert(i1 * p >= i2 * p + p) by (nonlinear_arith)
            requires
                i1 >= i2 + 1,
                p > 0,
        ;
    } else if i1 < i2 {
        assert(i2 * p >= i1 * p + p) by (nonlinear_arith)
            requires
                i2 >= i1 + 1,
                p > 0,
        ;
    }
}

/// Whether `common / len` is greater than the threshold.
pub fn is_over_threshold(common: usize, len: usize, th: Threshold) -> (r: bool)
    ensures
        r == over_threshold(common as nat, len as nat, th),
{
    proof {
        lemma_products_fit(common as int, th.denom as int);
        lemma_products_fit(th.numer as int, len as int);
    }
    len > 0 && (common as u128) * (th.denom as u128) > (th.numer as u128) * (len as u128)
}

/// Whether, with a source line of `ls` bytes, a candidate of `lt1` bytes
/// that shares `c1` characters scores higher than one of `lt2` bytes that
/// shares `c2`.
pub fn is_higher_score(c1: usize, lt1: usize, c2: usize, lt2: usize, ls: usize) -> (r: bool)
    requires
        lt1 > 0,
        lt2 > 0,
    ensures
        r == scores_higher(c1 as nat, lt1 as nat, c2 as nat, lt2 as nat, ls as nat),
{
    proof {
        lemma_products_fit(c1 as int, ls as int);
        lemma_products_fit(c2 as int, ls as int);
    }
    let n1: u128 = (c1 as u128) * (ls as u128);
    let n2: u128 = (c2 as u128) * (ls as u128);
    let q1: u128 = n1 / (lt1 as u128);
    let r1: u128 = n1 % (lt1 as u128);
    let q2: u128 = n2 / (lt2 as u128);
    let r2: u128 = n2 % (lt2 as u128);
    proof {
        vstd::arithmetic::div_mod::lemma_fundamental_div_mod(n1 as int, lt1 as int);
        vstd::arithmetic::div_mod::lemma_fundamental_div_mod(n2 as int, lt2 as int);
        assert(q1 <= n1) by (nonlinear_arith)
            requires
                q1 == n1 / (lt1 as u128),
                lt1 > 0,
        ;
        assert(q2 <= n2) by (nonlinear_arith)
            requires
                q2 == n2 / (lt2 as u128),
                lt2 > 0,
        ;
        lemma_products_fit(r1 as int, lt2 as int);
        lemma_products_fit(r2 as int, lt1 as int);
        assert((lt1 as int) * (q1 as int) == (q1 as int) * (lt1 as int)) by (nonlinear_arith);
        assert((lt2 as int) * (q2 as int) == (q2 as int) * (lt2 as int)) by (nonlinear_arith);
        lemma_score_order(
            c1 as int,
            lt1 as int,
            c2 as int,
            lt2 as int,
            ls as int,
            q1 as int,
            r1 as int,
            q2 as int,
            r2 as int,
        );
    }
    let i1: u128 = c1 as u128 + q1;
    let i2: u128 = c2 as u128 + q2;
    i1 > i2 || (i1 == i2 && r1 * (lt2 as u128) > r2 * (lt1 as u128))
}

/// The number of steps of a script that pair two characters.
pub fn count_common(d: &Vec<DiffItem<char>>) -> (n: usize)
    ensures
        n == common_count(d@),
{
    let mut n: usize = 0;
    let mut i: usize = 0;
    assert(d@.take(0) =~= Seq::empty());
    while i < d.len()
        invariant
            i <= d.len(),
            n <= i,
            n == common_count(d@.take(i as int)),
        decreases d.len() - i,
    {
        assert(d@.take(i + 1).drop_last() =~= d@.take(i as int));
        match &d[i] {
            DiffItem::Both(_, _) => {
                n += 1;
            },
            _ => {},
        }
        i += 1;
    }
    assert(d@.take(d.len() as int) =~= d@);
    n
}

/// Appends the marked lines among `lines` as garbage.
pub fn push_garbage(out: &mut Vec<MismatchLine>, lines: &[Line])
    ensures
        mismatch_views(final(out)@) == mismatch_views(old(out)@) + garbage_of(line_views(lines@)),
{
    let mut i: usize = 0;
    assert(line_views(lines@.take(0)) =~= Seq::empty());
    assert(mismatch_views(out@) =~= mismatch_views(old(out)@) + garbage_of(
        line_views(lines@.take(0)),
    ));
    while i < lines.len()
        invariant
            i <= lines.len(),
            mismatch_views(out@) == mismatch_views(old(out)@) + garbage_of(
                line_views(lines@.take(i as int)),
            ),
        decreases lines.len() - i,
    {
        let ghost prev = line_views(lines@.take(i as int));
        let ghost next = line_views(lines@.take(i + 1));
        proof {
            assert(next.drop_last() =~= prev);
            assert(next.last() == lines@[i as int]@);
        }
        if lines[i].html_comment || lines[i].code_not_comment {
            let g = MismatchLine::Garbage(GarbageLine { target: lines[i].clone() });
            proof {
                lemma_mismatch_views_push(out@, g);
                assert(garbage_of(next) =~= garbage_of(prev).push(g@));
            }
            out.push(g);
        }
        i += 1;
    }
    assert(lines@.take(lines.len() as int) =~= lines@);
}

/// The length, in characters, of the longest of the first `n` lines.
pub open spec fn longest(lines: Seq<LineView>, n: int) -> nat
    decreases n,
{
    if n <= 0 {
        0
    } else if lines[n - 1].content.len() > longest(lines, n - 1) {
        lines[n - 1].content.len()
    } else {
        longest(lines, n - 1)
    }
}

proof fn lemma_longest(lines: Seq<LineView>, n: int)
    requires
        0 <= n <= lines.len(),
    ensures
        forall|i: int| 0 <= i < n ==> (#[trigger] lines[i]).content.len() <= longest(lines, n),
        n > 0 ==> exists|i: int| 0 <= i < n && (#[trigger] lines[i]).content.len() == longest(lines, n),
    decreases n,
{
    if n > 0 {
        lemma_longest(lines, n - 1);
        if lines[n - 1].content.len() > longest(lines, n - 1) || n == 1 {
            assert(lines[n - 1].content.len() == longest(lines, n));
        } else {
            let i = choose|i: int|
                0 <= i < n - 1 && (#[trigger] lines[i]).content.len() == longest(lines, n - 1);
            assert(lines[i].content.len() == longest(lines, n));
        }
    }
}

/// The length, in characters, of the longest of `lines`.
fn longest_line(lines: &[Line]) -> (m: usize)
    ensures
        m == longest(line_views(lines@), lines@.len() as int),
{
    let mut m: usize = 0;
    let mut i: usize = 0;
    while i < lines.len()
        invariant
            i <= lines.len(),
            m == longest(line_views(lines@), i as int),
        decreases lines.len() - i,
    {
        assert(line_views(lines@)[i as int] == lines@[i as int]@);
        let n = lines[i].content.as_str().unicode_len();
        if n > m {
            m = n;
        }
        i += 1;
    }
    m
}

/// Whether every source line of a block can be lined up with every
/// candidate: whether the longest of either side can.
pub fn is_block_small(lefts: &[Line], rights: &[Line]) -> (r: bool)
    ensures
        r == block_fits(line_views(lefts@), line_views(rights@)),
{
    if lefts.len() == 0 || rights.len() == 0 {
        return true;
    }
    let l = longest_line(lefts);
    let r = longest_line(rights);
    let small = fits(l, r);
    proof {
        let ls = line_views(lefts@);
        let rs = line_views(rights@);
        lemma_longest(ls, ls.len() as int);
        lemma_longest(rs, rs.len() as int);
        if small {
            assert forall|i: int, j: int| 0 <= i < ls.len() && 0 <= j < rs.len() implies diff_fits(
                (#[trigger] ls[i]).content.len(),
                (#[trigger] rs[j]).content.len(),
            ) by {
                lemma_diff_fits_smaller(
                    l as nat,
                    r as nat,
                    ls[i].content.len(),
                    rs[j].content.len(),
                );
            }
        } else {
            let i = choose|i: int|
                0 <= i < ls.len() && (#[trigger] ls[i]).content.len() == longest(
                    ls,
                    ls.len() as int,
                );
            let j = choose|j: int|
                0 <= j < rs.len() && (#[trigger] rs[j]).content.len() == longest(
                    rs,
                    rs.len() as int,
                );
            assert(!diff_fits(ls[i].content.len(), rs[j].content.len()));
        }
    }
    small
}

/// Picks among candidates, each given by the number of characters it shares
/// with a source line of `ls` bytes and by its own length in bytes: the
/// candidate with the highest score among those that are similar, the first
/// of them where several score the same; none if no candidate is similar.
pub fn pick_most_similar(ls: usize, counts: &Vec<(usize, usize)>, th: Threshold) -> (r: Option<
    usize,
>)
    ensures
        picked(ls as nat, count_views(counts@), th) == match r {
            Some(i) => Some(i as int),
            None => None,
        },
        r matches Some(i) ==> i < counts.len(),
{
    let ghost all = count_views(counts@);
    let mut best: Option<usize> = None;
    let mut i: usize = 0;
    while i < counts.len()
        invariant
            i <= counts.len(),
            all == count_views(counts@),
            picked_upto(ls as nat, all, th, i as int) == match best {
                Some(j) => Some(j as int),
                None => None,
            },
            best matches Some(j) ==> j < i && counts@[j as int].1 > 0,
        decreases counts.len() - i,
    {
        let (c, lt) = counts[i];
        assert(all[i as int] == (c as nat, lt as nat));
        if is_over_threshold(c, ls, th) && is_over_threshold(c, lt, th) {
            let better = match best {
                None => true,
                Some(j) => {
                    assert(all[j as int] == (counts@[j as int].0 as nat, counts@[j as int].1 as nat));
                    is_higher_score(c, lt, counts[j].0, counts[j].1, ls)
                },
            };
            if better {
                best = Some(i);
            }
        }
        i += 1;
    }
    best
}

impl Matcher {
    /// Looks among `target` for the line that `source` was made into.
    ///
    /// Returns the partner, the candidates after it and the candidates before
    /// it; without a partner, all candidates are left and none is before.
    pub fn get_similar_line<'a>(&self, source: &Line, target: &'a [Line]) -> (r: (
        Option<Line>,
        &'a [Line],
        &'a [Line],
    ))
        requires
            line_fits(source@, line_views(target@)),
        ensures
            match most_similar(source@, line_views(target@), self.similar_threshold) {
                Some(i) => {
                    &&& 0 <= i < target@.len()
                    &&& r.0 matches Some(t) && t@ == target@[i]@
                    &&& r.1@ == target@.skip(i + 1)
                    &&& r.2@ == target@.take(i)
                },
                None => r.0 is None && r.1@ == target@ && r.2@ == Seq::<Line>::empty(),
            },
    {
        let ghost views = line_views(target@);
        let ls: usize = source.content.as_str().len();
        let mut counts: Vec<(usize, usize)> = Vec::new();
        let mut i: usize = 0;
        while i < target.len()
            invariant
                i <= target.len(),
                views == line_views(target@),
                line_fits(source@, views),
                counts@.len() == i,
                forall|j: int|
                    0 <= j < i ==> (#[trigger] count_views(counts@)[j]) == counts_of(
                        source@,
                        views,
                    )[j],
            decreases target.len() - i,
        {
            let t = &target[i];
            assert(views[i as int] == t@);
            let d = chars_diff(source.content.as_str(), t.content.as_str());
            let c = count_common(&d);
            let lt: usize = t.content.as_str().len();
            let ghost before = counts@;
            counts.push((c, lt));
            assert forall|j: int| 0 <= j < i + 1 implies (#[trigger] count_views(counts@)[j])
                == counts_of(source@, views)[j] by {
                if j < i {
                    assert(count_views(counts@)[j] == count_views(before)[j]);
                }
            }
            i += 1;
        }
        assert(count_views(counts@) =~= counts_of(source@, views));
        match pick_most_similar(ls, &counts, self.similar_threshold) {
            Some(j) => {
                let rest = slice_subrange(target, j + 1, target.len());
                let before = slice_subrange(target, 0, j);
                (Some(target[j].clone()), rest, before)
            },
            None => {
                let before = slice_subrange(target, 0, 0);
                assert(before@ =~= Seq::<Line>::empty());
                (None, target, before)
            },
        }
    }

    /// Classifies the lines of one block.
    ///
    /// `lefts` are the source lines of the block, `rights` the lines of the
    /// translation that stand in their place.
    pub fn resolve(&self, lefts: &[Line], rights: &[Line]) -> (out: Vec<MismatchLine>)
        requires
            block_fits(line_views(lefts@), line_views(rights@)),
        ensures
            mismatch_views(out@) == resolved(
                line_views(lefts@),
                line_views(rights@),
                self.similar_threshold,
            ),
    {
        let ghost th = self.similar_threshold;
        let ghost ls = line_views(lefts@);
        let mut out: Vec<MismatchLine> = Vec::new();
        let mut rest: &[Line] = rights;
        let mut last: Option<usize> = None;
        let mut k: usize = 0;
        assert(mismatch_views(out@) =~= Seq::empty());
        while k < lefts.len()
            invariant
                k <= lefts.len(),
                th == self.similar_threshold,
                ls == line_views(lefts@),
                block_fits(ls, line_views(rest@)),
                resolved(ls, line_views(rights@), th) == mismatch_views(out@) + resolved_from(
                    ls,
                    k as int,
                    line_views(rest@),
                    match last {
                        Some(x) => Some(x as nat),
                        None => None,
                    },
                    th,
                ),
            decreases lefts.len() - k,
        {
            let left = &lefts[k];
            let ghost cur = line_views(rest@);
            let ghost done = mismatch_views(out@);
            assert(ls[k as int] == left@);
            assert(line_fits(left@, cur)) by {
                assert forall|j: int| 0 <= j < cur.len() implies diff_fits(
                    left@.content.len(),
                    (#[trigger] cur[j]).content.len(),
                ) by {
                    assert(diff_fits(ls[k as int].content.len(), cur[j].content.len()));
                }
            }
            let (similar, after, before) = self.get_similar_line(left, rest);
            match similar {
                Some(target) => {
                    let ghost i = most_similar(left@, cur, th)->0;
                    push_garbage(&mut out, before);
                    last = Some(target.number);
                    let m = MismatchLine::Modified(
                        ModifiedLine { source: left.clone(), target },
                    );
                    proof {
                        lemma_mismatch_views_push(out@, m);
                        assert(line_views(before@) =~= cur.take(i));
                        assert(line_views(after@) =~= cur.skip(i + 1));
                        assert(block_fits(ls, line_views(after@))) by {
                            assert forall|a: int, b: int|
                                0 <= a < ls.len() && 0 <= b < line_views(
                                    after@,
                                ).len() implies diff_fits(
                                (#[trigger] ls[a]).content.len(),
                                (#[trigger] line_views(after@)[b]).content.len(),
                            ) by {
                                assert(line_views(after@)[b] == cur[b + i + 1]);
                            }
                        }
                    }
                    out.push(m);
                    rest = after;
                    assert(mismatch_views(out@) =~= done + garbage_of(cur.take(i)) + seq![
                        MismatchLineView::Modified { source: ls[k as int], target: cur[i] },
                    ]);
                },
                None => {
                    let mut source = left.clone();
                    match last {
                        Some(x) => {
                            if x > source.last_both {
                                source.last_both = x;
                            }
                        },
                        None => {},
                    }
                    let m = MismatchLine::Missing(MissingLine { source });
                    proof {
                        lemma_mismatch_views_push(out@, m);
                    }
                    out.push(m);
                    assert(mismatch_views(out@) =~= done + seq![
                        MismatchLineView::Missing {
                            source: raised(
                                ls[k as int],
                                match last {
                                    Some(x) => Some(x as nat),
                                    None => None,
                                },
                            ),
                        },
                    ]);
                },
            }
            k += 1;
        }
        push_garbage(&mut out, rest);
        out
    }
}

} // verus!
