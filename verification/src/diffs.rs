//! The edit scripts that line up two texts, line by line or character by
//! character. They are computed by the `diff` crate; this module gives them a
//! type and a name.

use vstd::prelude::*;
use crate::text::{lemma_lines_from_short, lines_of};

verus! {

/// One step of an edit script.
#[derive(Debug)]
pub enum DiffItem<T> {
    /// An element that only the left input has.
    Left(T),
    /// An element of the left input and the element of the right input that
    /// it was lined up with.
    Both(T, T),
    /// An element that only the right input has.
    Right(T),
}

/// The edit script between the characters of two texts.
pub uninterp spec fn char_diff(left: Seq<char>, right: Seq<char>) -> Seq<DiffItem<char>>;

/// The edit script between the lines of two texts.
pub uninterp spec fn line_diff(left: Seq<char>, right: Seq<char>) -> Seq<DiffItem<Seq<char>>>;

/// What a step over lines stands for.
pub open spec fn item_view(d: DiffItem<String>) -> DiffItem<Seq<char>> {
    match d {
        DiffItem::Left(x) => DiffItem::Left(x@),
        DiffItem::Both(x, y) => DiffItem::Both(x@, y@),
        DiffItem::Right(y) => DiffItem::Right(y@),
    }
}

/// What an edit script over lines stands for.
pub open spec fn item_views(d: Seq<DiffItem<String>>) -> Seq<DiffItem<Seq<char>>> {
    d.map_values(|i: DiffItem<String>| item_view(i))
}

/// What a script holds of its left input, in order.
pub open spec fn left_side<T>(d: Seq<DiffItem<T>>) -> Seq<T>
    decreases d.len(),
{
    if d.len() == 0 {
        Seq::empty()
    } else {
        match d.last() {
            DiffItem::Left(x) => left_side(d.drop_last()).push(x),
            DiffItem::Both(x, _) => left_side(d.drop_last()).push(x),
            DiffItem::Right(_) => left_side(d.drop_last()),
        }
    }
}

/// What a script holds of its right input, in order.
pub open spec fn right_side<T>(d: Seq<DiffItem<T>>) -> Seq<T>
    decreases d.len(),
{
    if d.len() == 0 {
        Seq::empty()
    } else {
        match d.last() {
            DiffItem::Left(_) => right_side(d.drop_last()),
            DiffItem::Both(_, y) => right_side(d.drop_last()).push(y),
            DiffItem::Right(y) => right_side(d.drop_last()).push(y),
        }
    }
}

/// The number of steps that pair two elements.
pub open spec fn both_count<T>(d: Seq<DiffItem<T>>) -> nat
    decreases d.len(),
{
    if d.len() == 0 {
        0
    } else if d.last() is Both {
        both_count(d.drop_last()) + 1
    } else {
        both_count(d.drop_last())
    }
}

/// The length of a longest sequence that can be had from both `a` and `b`
/// by leaving elements out.
pub open spec fn lcs_len<T>(a: Seq<T>, b: Seq<T>) -> nat
    decreases a.len() + b.len(),
{
    if a.len() == 0 || b.len() == 0 {
        0
    } else if a.last() == b.last() {
        lcs_len(a.drop_last(), b.drop_last()) + 1
    } else if lcs_len(a.drop_last(), b) >= lcs_len(a, b.drop_last()) {
        lcs_len(a.drop_last(), b)
    } else {
        lcs_len(a, b.drop_last())
    }
}

/// The text ends with a line feed.
pub open spec fn ends_with_line_feed(text: Seq<char>) -> bool {
    text.len() > 0 && text.last() == '\n'
}

/// The number of lines that a longest pairing of the lines of two texts
/// pairs: the length of a longest common subsequence of their lines, and one
/// more for the empty last lines of two texts that both end with a line
/// feed.
pub open spec fn paired_lines(left: Seq<char>, right: Seq<char>) -> nat {
    if ends_with_line_feed(left) && ends_with_line_feed(right) {
        lcs_len(lines_of(left), lines_of(right)) + 1
    } else {
        lcs_len(lines_of(left), lines_of(right))
    }
}

/// The lines of a text as a script over lines counts them: a text that ends
/// with a line feed has one more line, which is empty.
pub open spec fn script_lines(text: Seq<char>) -> Seq<Seq<char>> {
    if text.len() > 0 && text.last() == '\n' {
        lines_of(text).push(Seq::empty())
    } else {
        lines_of(text)
    }
}

/// Every step pairs two lines.
pub open spec fn all_both(d: Seq<DiffItem<Seq<char>>>) -> bool {
    forall|i: int| 0 <= i < d.len() ==> (#[trigger] d[i]) is Both
}

/// No line on the left is longer than `l`, none on the right longer than `r`.
pub open spec fn within(d: Seq<DiffItem<Seq<char>>>, l: nat, r: nat) -> bool {
    forall|i: int|
        0 <= i < d.len() ==> match #[trigger] d[i] {
            DiffItem::Left(x) => x.len() <= l,
            DiffItem::Both(x, y) => x.len() <= l && y.len() <= r,
            DiffItem::Right(y) => y.len() <= r,
        }
}

/// What a step holds is on the side it belongs to.
pub proof fn lemma_sides_cover<T>(d: Seq<DiffItem<T>>, i: int)
    requires
        0 <= i < d.len(),
    ensures
        match d[i] {
            DiffItem::Left(x) => left_side(d).contains(x),
            DiffItem::Both(x, y) => left_side(d).contains(x) && right_side(d).contains(y),
            DiffItem::Right(y) => right_side(d).contains(y),
        },
    decreases d.len(),
{
    let init = d.drop_last();
    if i == d.len() - 1 {
        assert(d.last() == d[i]);
        match d[i] {
            DiffItem::Left(x) => {
                assert(left_side(d)[left_side(init).len() as int] == x);
            },
            DiffItem::Both(x, y) => {
                assert(left_side(d)[left_side(init).len() as int] == x);
                assert(right_side(d)[right_side(init).len() as int] == y);
            },
            DiffItem::Right(y) => {
                assert(right_side(d)[right_side(init).len() as int] == y);
            },
        }
    } else {
        lemma_sides_cover(init, i);
        assert(init[i] == d[i]);
        match d[i] {
            DiffItem::Left(x) => {
                let k = choose|k: int| 0 <= k < left_side(init).len() && left_side(init)[k] == x;
                assert(left_side(d)[k] == x);
            },
            DiffItem::Both(x, y) => {
                let k = choose|k: int| 0 <= k < left_side(init).len() && left_side(init)[k] == x;
                assert(left_side(d)[k] == x);
                let m = choose|m: int| 0 <= m < right_side(init).len() && right_side(init)[m] == y;
                assert(right_side(d)[m] == y);
            },
            DiffItem::Right(y) => {
                let m = choose|m: int| 0 <= m < right_side(init).len() && right_side(init)[m] == y;
                assert(right_side(d)[m] == y);
            },
        }
    }
}

/// No line of a text is longer than the text.
pub proof fn lemma_script_lines_short(text: Seq<char>)
    ensures
        forall|i: int|
            0 <= i < script_lines(text).len() ==> (#[trigger] script_lines(text)[i]).len()
                <= text.len(),
{
    lemma_lines_from_short(text, 0);
}

/// A script between the lines of two texts holds no line longer than its
/// text.
pub proof fn lemma_script_within(d: Seq<DiffItem<Seq<char>>>, left: Seq<char>, right: Seq<char>)
    requires
        left_side(d) == script_lines(left),
        right_side(d) == script_lines(right),
    ensures
        within(d, left.len(), right.len()),
{
    lemma_script_lines_short(left);
    lemma_script_lines_short(right);
    assert forall|i: int| 0 <= i < d.len() implies match #[trigger] d[i] {
        DiffItem::Left(x) => x.len() <= left.len(),
        DiffItem::Both(x, y) => x.len() <= left.len() && y.len() <= right.len(),
        DiffItem::Right(y) => y.len() <= right.len(),
    } by {
        lemma_sides_cover(d, i);
    }
}

/// Two inputs of `l` and `r` elements are small enough to be lined up: the
/// table of `(l + 1) * (r + 1)` entries that the computation fills, and the
/// script it returns, can be allocated.
pub open spec fn diff_fits(l: nat, r: nat) -> bool {
    (l + 1) * (r + 1) <= isize::MAX / 128
}

/// Smaller inputs fit as well.
pub proof fn lemma_diff_fits_smaller(l: nat, r: nat, l2: nat, r2: nat)
    requires
        diff_fits(l, r),
        l2 <= l,
        r2 <= r,
    ensures
        diff_fits(l2, r2),
{
    assert((l2 + 1) * (r2 + 1) <= (l + 1) * (r + 1)) by (nonlinear_arith)
        requires
            l2 <= l,
            r2 <= r,
    ;
}

/// A product stays under a bound exactly if one factor stays under the
/// bound divided by the other.
pub proof fn lemma_product_bound(a: int, b: int, m: int)
    requires
        0 <= a,
        0 < b,
        0 <= m,
    ensures
        (a <= m / b) == (a * b <= m),
{
    let q = m / b;
    let rem = m % b;
    assert(m == b * q + rem && 0 <= rem < b) by {
        vstd::arithmetic::div_mod::lemma_fundamental_div_mod(m, b);
        vstd::arithmetic::div_mod::lemma_mod_bound(m, b);
    }
    if a <= q {
        assert(a * b <= q * b) by (nonlinear_arith)
            requires
                a <= q,
                0 < b,
        ;
        assert(q * b == b * q) by (nonlinear_arith);
    } else {
        assert(a * b >= (q + 1) * b) by (nonlinear_arith)
            requires
                a >= q + 1,
                0 < b,
        ;
        assert((q + 1) * b == b * q + b) by (nonlinear_arith);
    }
}

/// Whether two inputs of `l` and `r` elements are small enough to be lined up.
pub fn fits(l: usize, r: usize) -> (b: bool)
    ensures
        b == diff_fits(l as nat, r as nat),
{
    let limit: usize = (isize::MAX as usize) / 128;
    if l >= limit || r >= limit {
        assert((l + 1) * (r + 1) > limit) by (nonlinear_arith)
            requires
                l >= limit || r >= limit,
        ;
        false
    } else {
        let q: usize = limit / (r + 1);
        proof {
            lemma_product_bound(l + 1, r + 1, limit as int);
        }
        l + 1 <= q
    }
}

/// `diff::chars`: the edit script between the characters of `left` and
/// `right`. The script is a function of the two texts alone; nothing more is
/// claimed of it. Texts that do not fit are left out, since the crate
/// allocates a table of `(l + 1) * (r + 1)` counters.
#[verifier::external_body]
pub(crate) fn chars_diff(left: &str, right: &str) -> (r: Vec<DiffItem<char>>)
    requires
        diff_fits(left@.len(), right@.len()),
    ensures
        r@ == char_diff(left@, right@),
{
    diff::chars(left, right).into_iter().map(|d| match d {
        diff::Result::Left(x) => DiffItem::Left(x),
        diff::Result::Both(x, y) => DiffItem::Both(x, y),
        diff::Result::Right(y) => DiffItem::Right(y),
    }).collect()
}

/// `diff::lines`: the edit script between the lines of `left` and `right`.
/// The script is a function of the two texts alone. Three facts are taken
/// from the crate, which calls itself a diff by longest common subsequence,
/// and from its source. The script pairs as many lines as a longest common
/// subsequence of the lines of the two texts holds, and the empty last lines
/// of two texts that both end with a line feed. The script is one between
/// the two texts: its steps
/// hold the lines of `left` in order, and the lines of `right`, where the
/// crate counts an empty last line for a text that ends with a line feed. And
/// equal texts give a script that pairs every line, since the crate first
/// pairs the common leading lines. Texts with too many lines are left out,
/// since the crate allocates a table with a counter for every pair of lines.
#[verifier::external_body]
pub(crate) fn lines_diff(left: &str, right: &str) -> (r: Vec<DiffItem<String>>)
    requires
        diff_fits(lines_of(left@).len(), lines_of(right@).len()),
    ensures
        item_views(r@) == line_diff(left@, right@),
        left_side(item_views(r@)) == script_lines(left@),
        right_side(item_views(r@)) == script_lines(right@),
        both_count(item_views(r@)) == paired_lines(left@, right@),
        left@ == right@ ==> all_both(item_views(r@)),
{
    diff::lines(left, right).into_iter().map(|d| match d {
        diff::Result::Left(x) => DiffItem::Left(x.to_string()),
        diff::Result::Both(x, y) => DiffItem::Both(x.to_string(), y.to_string()),
        diff::Result::Right(y) => DiffItem::Right(y.to_string()),
    }).collect()
}

} // verus!
