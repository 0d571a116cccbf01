//! What holds of every pass over an edit script.

use vstd::prelude::*;
use crate::align::{aligned, flagged_only, AlignState, BlockView};
use crate::diffs::{all_both, left_side, right_side, DiffItem};
use crate::matcher::LineView;

verus! {

/// The numbers of the lines go up.
pub open spec fn increasing_numbers(lines: Seq<LineView>) -> bool {
    forall|i: int, j: int|
        0 <= i < j < lines.len() ==> (#[trigger] lines[i]).number < (#[trigger] lines[j]).number
}

/// The anchors of the source lines do not go down.
pub open spec fn sorted_anchors(lefts: Seq<LineView>) -> bool {
    forall|i: int, j: int|
        0 <= i <= j < lefts.len() ==> (#[trigger] lefts[i]).last_both <= (
        #[trigger] lefts[j]).last_both
}

/// The numbers of the lines do not go down.
pub open spec fn ascending_numbers(rights: Seq<LineView>) -> bool {
    forall|i: int, j: int|
        0 <= i <= j < rights.len() ==> (#[trigger] rights[i]).number <= (
        #[trigger] rights[j]).number
}

/// The lines are in the order of their file: their numbers go up, and
/// their anchors do not go down.
pub open spec fn in_file_order(lines: Seq<LineView>) -> bool {
    increasing_numbers(lines) && sorted_anchors(lines)
}

/// A block as a pass over a script cuts it: both sides are in the order of
/// their files.
pub open spec fn ordered_block(b: BlockView) -> bool {
    in_file_order(b.lefts) && in_file_order(b.rights)
}

/// Every line of an earlier block comes before every line of a later one.
pub open spec fn blocks_in_order(blocks: Seq<BlockView>) -> bool {
    forall|i: int, j: int, a: int, b: int|
        0 <= i < j < blocks.len() && 0 <= a < blocks[i].lefts.len() && 0 <= b
            < blocks[j].lefts.len() ==> (#[trigger] blocks[i].lefts[a]).number < (
        #[trigger] blocks[j].lefts[b]).number
}

pub proof fn lemma_flagged_only_push(s: Seq<LineView>, l: LineView)
    ensures
        flagged_only(s.push(l)) == if l.flagged() {
            flagged_only(s).push(l)
        } else {
            flagged_only(s)
        },
{
    assert(s.push(l).drop_last() =~= s);
}

proof fn lemma_flagged_only_flagged(s: Seq<LineView>)
    ensures
        forall|i: int| 0 <= i < flagged_only(s).len() ==> (#[trigger] flagged_only(s)[i]).flagged(),
    decreases s.len(),
{
    if s.len() > 0 {
        lemma_flagged_only_flagged(s.drop_last());
        let before = flagged_only(s.drop_last());
        assert forall|i: int| 0 <= i < flagged_only(s).len() implies (#[trigger] flagged_only(
            s,
        )[i]).flagged() by {
            if i < before.len() {
                assert(flagged_only(s)[i] == before[i]);
            }
        }
    }
}

proof fn lemma_flagged_only_all(s: Seq<LineView>)
    requires
        forall|i: int| 0 <= i < s.len() ==> (#[trigger] s[i]).flagged(),
    ensures
        flagged_only(s) == s,
    decreases s.len(),
{
    if s.len() > 0 {
        lemma_flagged_only_all(s.drop_last());
        assert(s.drop_last().push(s.last()) =~= s);
    }
}

/// Picking the marked lines twice picks no fewer than picking them once.
pub proof fn lemma_flagged_only_twice(s: Seq<LineView>)
    ensures
        flagged_only(flagged_only(s)) == flagged_only(s),
{
    lemma_flagged_only_flagged(s);
    lemma_flagged_only_all(flagged_only(s));
}

/// The marked lines among `s` are lines of `s`, in the same order: the
/// result says which.
proof fn lemma_flagged_only_picks(s: Seq<LineView>) -> (idx: Seq<int>)
    ensures
        idx.len() == flagged_only(s).len(),
        forall|i: int| 0 <= i < idx.len() ==> 0 <= #[trigger] idx[i] < s.len(),
        forall|i: int| 0 <= i < idx.len() ==> #[trigger] flagged_only(s)[i] == s[idx[i]],
        forall|i: int, j: int| 0 <= i < j < idx.len() ==> #[trigger] idx[i] < #[trigger] idx[j],
    decreases s.len(),
{
    if s.len() == 0 {
        Seq::empty()
    } else {
        let before = lemma_flagged_only_picks(s.drop_last());
        if s.last().flagged() {
            let idx = before.push(s.len() - 1);
            assert forall|i: int| 0 <= i < idx.len() implies #[trigger] flagged_only(s)[i]
                == s[idx[i]] by {
                if i < before.len() {
                    assert(flagged_only(s)[i] == flagged_only(s.drop_last())[i]);
                    assert(s.drop_last()[before[i]] == s[before[i]]);
                }
            }
            idx
        } else {
            assert forall|i: int| 0 <= i < before.len() implies #[trigger] flagged_only(s)[i]
                == s[before[i]] by {
                assert(s.drop_last()[before[i]] == s[before[i]]);
            }
            before
        }
    }
}

/// Picking the marked lines keeps the order of the file.
proof fn lemma_flagged_only_in_order(s: Seq<LineView>)
    requires
        in_file_order(s),
    ensures
        in_file_order(flagged_only(s)),
{
    let idx = lemma_flagged_only_picks(s);
    let f = flagged_only(s);
    assert forall|i: int, j: int| 0 <= i < j < f.len() implies (#[trigger] f[i]).number < (
    #[trigger] f[j]).number by {
        assert(idx[i] < idx[j]);
        assert(s[idx[i]].number < s[idx[j]].number);
    }
    assert forall|i: int, j: int| 0 <= i <= j < f.len() implies (#[trigger] f[i]).last_both <= (
    #[trigger] f[j]).last_both by {
        if i < j {
            assert(idx[i] < idx[j]);
        }
        assert(s[idx[i]].last_both <= s[idx[j]].last_both);
    }
}

/// Numbers that go up do not go down.
pub proof fn lemma_increasing_ascends(lines: Seq<LineView>)
    requires
        increasing_numbers(lines),
    ensures
        ascending_numbers(lines),
{
}

/// An edit script that pairs every line yields no block, and no line that
/// only the translation has.
pub proof fn law_all_both_no_blocks(items: Seq<DiffItem<Seq<char>>>)
    requires
        all_both(items),
    ensures
        aligned(items).0 == Seq::<BlockView>::empty(),
        aligned(items).1 == Seq::<LineView>::empty(),
{
    lemma_run_all_both(items);
}

proof fn lemma_run_all_both(items: Seq<DiffItem<Seq<char>>>)
    requires
        all_both(items),
    ensures
        AlignState::run(items).lefts == Seq::<LineView>::empty(),
        AlignState::run(items).rights == Seq::<LineView>::empty(),
        AlignState::run(items).blocks == Seq::<BlockView>::empty(),
        AlignState::run(items).right_only == Seq::<LineView>::empty(),
    decreases items.len(),
{
    if items.len() > 0 {
        let init = items.drop_last();
        assert(all_both(init)) by {
            assert forall|i: int| 0 <= i < init.len() implies (#[trigger] init[i]) is Both by {
                assert(init[i] == items[i]);
            }
        }
        lemma_run_all_both(init);
        assert(items.last() == items[items.len() - 1]);
        assert(items.last() is Both);
    }
}

/// Every line of `lines` has a number from 1 to `count`, and an anchor of
/// at most `anchor`.
pub open spec fn lines_upto(lines: Seq<LineView>, count: nat, anchor: nat) -> bool {
    forall|i: int|
        0 <= i < lines.len() ==> 1 <= (#[trigger] lines[i]).number <= count && lines[i].last_both
            <= anchor
}

impl AlignState {
    /// What a pass keeps in order: the open run, every block, and the lines
    /// that only the translation has.
    pub open spec fn ordered(self) -> bool {
        &&& self.last_both_source <= self.source_line
        &&& self.last_both_target <= self.target_line
        &&& in_file_order(self.lefts)
        &&& in_file_order(self.rights)
        &&& in_file_order(self.right_only)
        &&& lines_upto(self.lefts, self.source_line, self.last_both_target)
        &&& lines_upto(self.rights, self.target_line, self.last_both_source)
        &&& lines_upto(self.right_only, self.target_line, self.last_both_source)
        &&& forall|i: int|
            0 <= i < self.lefts.len() ==> (#[trigger] self.lefts[i]).number
                > self.last_both_source
        &&& forall|i: int| 0 <= i < self.blocks.len() ==> ordered_block(#[trigger] self.blocks[i])
        &&& blocks_in_order(self.blocks)
        &&& forall|i: int, a: int|
            0 <= i < self.blocks.len() && 0 <= a < self.blocks[i].lefts.len() ==> (
            #[trigger] self.blocks[i].lefts[a]).number <= self.last_both_source
    }

    /// A line that both texts have keeps the order: the open run is closed
    /// at the counters before the line.
    proof fn lemma_on_both_ordered(self, c: Seq<char>)
        requires
            self.ordered(),
        ensures
            self.on_both(c).ordered(),
    {
        lemma_flagged_only_in_order(self.rights);
        let done = self.on_both(c);
        assert(in_file_order(done.lefts));
        assert(in_file_order(done.rights));
        assert forall|i: int| 0 <= i < done.blocks.len() implies ordered_block(
            #[trigger] done.blocks[i],
        ) by {
            if i < self.blocks.len() {
                assert(done.blocks[i] == self.blocks[i]);
            }
        }
        assert forall|i: int, a: int|
            0 <= i < done.blocks.len() && 0 <= a < done.blocks[i].lefts.len() implies (
        #[trigger] done.blocks[i].lefts[a]).number <= done.last_both_source by {
            if i < self.blocks.len() {
                assert(done.blocks[i] == self.blocks[i]);
                assert(self.blocks[i].lefts[a].number <= self.last_both_source);
            } else {
                assert(done.blocks[i].lefts[a] == self.lefts[a]);
            }
        }
        assert forall|i: int, j: int, a: int, b: int|
            0 <= i < j < done.blocks.len() && 0 <= a < done.blocks[i].lefts.len() && 0 <= b
                < done.blocks[j].lefts.len() implies (#[trigger] done.blocks[i].lefts[a]).number < (
        #[trigger] done.blocks[j].lefts[b]).number by {
            assert(done.blocks[i] == self.blocks[i]);
            if j < self.blocks.len() {
                assert(done.blocks[j] == self.blocks[j]);
            } else {
                assert(done.blocks[j].lefts[b] == self.lefts[b]);
                assert(self.blocks[i].lefts[a].number <= self.last_both_source);
            }
        }
    }

    proof fn lemma_push_in_order(lines: Seq<LineView>, line: LineView, count: nat, anchor: nat)
        requires
            in_file_order(lines),
            lines_upto(lines, count, anchor),
            line.number == count + 1,
            line.last_both == anchor,
        ensures
            in_file_order(lines.push(line)),
            lines_upto(lines.push(line), count + 1, anchor),
    {
        let more = lines.push(line);
        assert forall|i: int, j: int| 0 <= i < j < more.len() implies (#[trigger] more[i]).number
            < (#[trigger] more[j]).number by {
            assert(more[i] == lines[i]);
            if j < lines.len() {
                assert(more[j] == lines[j]);
            }
        }
        assert forall|i: int, j: int| 0 <= i <= j < more.len() implies (
        #[trigger] more[i]).last_both <= (#[trigger] more[j]).last_both by {
            if i < lines.len() {
                assert(more[i] == lines[i]);
            }
            if j < lines.len() {
                assert(more[j] == lines[j]);
            }
        }
        assert forall|i: int| 0 <= i < more.len() implies 1 <= (#[trigger] more[i]).number
            <= count + 1 && more[i].last_both <= anchor by {
            if i < lines.len() {
                assert(more[i] == lines[i]);
            }
        }
    }

    proof fn lemma_run_ordered(items: Seq<DiffItem<Seq<char>>>)
        ensures
            AlignState::run(items).ordered(),
        decreases items.len(),
    {
        if items.len() > 0 {
            AlignState::lemma_run_ordered(items.drop_last());
            let before = AlignState::run(items.drop_last());
            match items.last() {
                DiffItem::Left(c) => {
                    let after = before.on_left(c);
                    AlignState::lemma_push_in_order(
                        before.lefts,
                        after.lefts.last(),
                        before.source_line,
                        before.last_both_target,
                    );
                    assert forall|i: int| 0 <= i < after.lefts.len() implies (
                    #[trigger] after.lefts[i]).number > after.last_both_source by {
                        if i < before.lefts.len() {
                            assert(after.lefts[i] == before.lefts[i]);
                        }
                    }
                },
                DiffItem::Right(c) => {
                    let after = before.on_right(c);
                    AlignState::lemma_push_in_order(
                        before.rights,
                        after.rights.last(),
                        before.target_line,
                        before.last_both_source,
                    );
                    AlignState::lemma_push_in_order(
                        before.right_only,
                        after.right_only.last(),
                        before.target_line,
                        before.last_both_source,
                    );
                },
                DiffItem::Both(c, _) => {
                    before.lemma_on_both_ordered(c);
                },
            }
        }
    }
}

/// The lines that a pass hands out are in the order of their files. Within
/// every block, and among the lines that only the translation has, the
/// numbers go up and the anchors do not go down; and every source line of a
/// block comes before every source line of a later block.
pub proof fn law_lines_in_file_order(items: Seq<DiffItem<Seq<char>>>)
    ensures
        forall|i: int|
            0 <= i < aligned(items).0.len() ==> ordered_block(#[trigger] aligned(items).0[i]),
        blocks_in_order(aligned(items).0),
        in_file_order(aligned(items).1),
{
    AlignState::lemma_run_ordered(items);
    AlignState::run(items).lemma_flush_end();
}

impl AlignState {
    /// Closing the open run at the end of the script keeps the order of the
    /// blocks.
    proof fn lemma_flush_end(self)
        requires
            self.ordered(),
        ensures
            forall|i: int|
                0 <= i < self.flush().blocks.len() ==> ordered_block(
                    #[trigger] self.flush().blocks[i],
                ),
            blocks_in_order(self.flush().blocks),
            in_file_order(self.flush().right_only),
    {
        lemma_flagged_only_in_order(self.rights);
        let done = self.flush();
        assert forall|i: int| 0 <= i < done.blocks.len() implies ordered_block(
            #[trigger] done.blocks[i],
        ) by {
            if i < self.blocks.len() {
                assert(done.blocks[i] == self.blocks[i]);
            }
        }
        assert forall|i: int, j: int, a: int, b: int|
            0 <= i < j < done.blocks.len() && 0 <= a < done.blocks[i].lefts.len() && 0 <= b
                < done.blocks[j].lefts.len() implies (#[trigger] done.blocks[i].lefts[a]).number < (
        #[trigger] done.blocks[j].lefts[b]).number by {
            assert(done.blocks[i] == self.blocks[i]);
            if j < self.blocks.len() {
                assert(done.blocks[j] == self.blocks[j]);
            } else {
                assert(done.blocks[j].lefts[b] == self.lefts[b]);
                assert(self.blocks[i].lefts[a].number <= self.last_both_source);
            }
        }
    }
}

/// Every line of `lines` stands in `side` at its number, counted from 1.
pub open spec fn placed(lines: Seq<LineView>, side: Seq<Seq<char>>) -> bool {
    forall|i: int|
        0 <= i < lines.len() ==> 1 <= (#[trigger] lines[i]).number <= side.len() && side[lines[i].number
            - 1] == lines[i].content
}

/// Every source line of every block stands in `left` at its number, and
/// every line of the translation in `right`.
pub open spec fn blocks_placed(
    blocks: Seq<BlockView>,
    left: Seq<Seq<char>>,
    right: Seq<Seq<char>>,
) -> bool {
    forall|i: int|
        0 <= i < blocks.len() ==> placed((#[trigger] blocks[i]).lefts, left) && placed(
            blocks[i].rights,
            right,
        )
}

proof fn lemma_placed_grows(lines: Seq<LineView>, side: Seq<Seq<char>>, x: Seq<char>)
    requires
        placed(lines, side),
    ensures
        placed(lines, side.push(x)),
{
    assert forall|i: int| 0 <= i < lines.len() implies 1 <= (#[trigger] lines[i]).number
        <= side.push(x).len() && side.push(x)[lines[i].number - 1] == lines[i].content by {
        assert(side.push(x)[lines[i].number - 1] == side[lines[i].number - 1]);
    }
}

proof fn lemma_placed_push(lines: Seq<LineView>, side: Seq<Seq<char>>, line: LineView)
    requires
        placed(lines, side),
        line.number == side.len() + 1,
    ensures
        placed(lines.push(line), side.push(line.content)),
{
    lemma_placed_grows(lines, side, line.content);
    let more = lines.push(line);
    assert forall|i: int| 0 <= i < more.len() implies 1 <= (#[trigger] more[i]).number
        <= side.push(line.content).len() && side.push(line.content)[more[i].number - 1]
        == more[i].content by {
        if i < lines.len() {
            assert(more[i] == lines[i]);
        }
    }
}

proof fn lemma_blocks_placed_grow(
    blocks: Seq<BlockView>,
    left: Seq<Seq<char>>,
    right: Seq<Seq<char>>,
    left2: Seq<Seq<char>>,
    right2: Seq<Seq<char>>,
)
    requires
        blocks_placed(blocks, left, right),
        left2 == left || exists|x: Seq<char>| left2 == left.push(x),
        right2 == right || exists|y: Seq<char>| right2 == right.push(y),
    ensures
        blocks_placed(blocks, left2, right2),
{
    assert forall|i: int| 0 <= i < blocks.len() implies placed(
        (#[trigger] blocks[i]).lefts,
        left2,
    ) && placed(blocks[i].rights, right2) by {
        if left2 != left {
            let x = choose|x: Seq<char>| left2 == left.push(x);
            lemma_placed_grows(blocks[i].lefts, left, x);
        }
        if right2 != right {
            let y = choose|y: Seq<char>| right2 == right.push(y);
            lemma_placed_grows(blocks[i].rights, right, y);
        }
    }
}

proof fn lemma_flagged_only_placed(s: Seq<LineView>, side: Seq<Seq<char>>)
    requires
        placed(s, side),
    ensures
        placed(flagged_only(s), side),
{
    let idx = lemma_flagged_only_picks(s);
    assert forall|i: int| 0 <= i < flagged_only(s).len() implies 1 <= (#[trigger] flagged_only(
        s,
    )[i]).number <= side.len() && side[flagged_only(s)[i].number - 1] == flagged_only(
        s,
    )[i].content by {
        assert(flagged_only(s)[i] == s[idx[i]]);
    }
}

impl AlignState {
    /// The counters say how many lines of each text the script has shown, and
    /// every line that the state holds stands in its text at its number.
    pub open spec fn placed(self, items: Seq<DiffItem<Seq<char>>>) -> bool {
        &&& self.source_line == left_side(items).len()
        &&& self.target_line == right_side(items).len()
        &&& placed(self.lefts, left_side(items))
        &&& placed(self.rights, right_side(items))
        &&& placed(self.right_only, right_side(items))
        &&& blocks_placed(self.blocks, left_side(items), right_side(items))
    }

    proof fn lemma_flush_placed(self, items: Seq<DiffItem<Seq<char>>>)
        requires
            self.placed(items),
        ensures
            self.flush().placed(items),
    {
        lemma_flagged_only_placed(self.rights, right_side(items));
        let done = self.flush();
        assert forall|i: int| 0 <= i < done.blocks.len() implies placed(
            (#[trigger] done.blocks[i]).lefts,
            left_side(items),
        ) && placed(done.blocks[i].rights, right_side(items)) by {
            if i < self.blocks.len() {
                assert(done.blocks[i] == self.blocks[i]);
            }
        }
    }

    proof fn lemma_run_placed(items: Seq<DiffItem<Seq<char>>>)
        ensures
            AlignState::run(items).placed(items),
        decreases items.len(),
    {
        if items.len() > 0 {
            let init = items.drop_last();
            AlignState::lemma_run_placed(init);
            let before = AlignState::run(init);
            let left = left_side(init);
            let right = right_side(init);
            match items.last() {
                DiffItem::Left(c) => {
                    let after = before.on_left(c);
                    lemma_placed_push(before.lefts, left, after.lefts.last());
                    lemma_blocks_placed_grow(before.blocks, left, right, left.push(c), right);
                },
                DiffItem::Right(c) => {
                    let after = before.on_right(c);
                    lemma_placed_push(before.rights, right, after.rights.last());
                    lemma_placed_push(before.right_only, right, after.right_only.last());
                    lemma_blocks_placed_grow(before.blocks, left, right, left, right.push(c));
                },
                DiffItem::Both(c, d) => {
                    lemma_placed_grows(before.lefts, left, c);
                    lemma_placed_grows(before.rights, right, d);
                    lemma_placed_grows(before.right_only, right, d);
                    lemma_blocks_placed_grow(
                        before.blocks,
                        left,
                        right,
                        left.push(c),
                        right.push(d),
                    );
                    let moved = AlignState {
                        source_line: before.source_line + 1,
                        target_line: before.target_line + 1,
                        last_both_source: before.source_line + 1,
                        last_both_target: before.target_line + 1,
                        fence: before.fence.after_both(c),
                        ..before
                    };
                    moved.lemma_flush_placed(items);
                },
            }
        }
    }
}

/// The number of a line is its place in its text: every line that a pass
/// hands out is the line that the script holds, on the side of the line, at
/// that number.
pub proof fn law_numbers_are_positions(items: Seq<DiffItem<Seq<char>>>)
    ensures
        blocks_placed(aligned(items).0, left_side(items), right_side(items)),
        placed(aligned(items).1, right_side(items)),
{
    AlignState::lemma_run_placed(items);
    AlignState::run(items).lemma_flush_placed(items);
}

/// No source line of the block has an anchor above `top`, and no line of
/// the translation a number above it.
pub open spec fn block_upto(b: BlockView, top: nat) -> bool {
    &&& forall|a: int| 0 <= a < b.lefts.len() ==> (#[trigger] b.lefts[a]).last_both <= top
    &&& forall|r: int| 0 <= r < b.rights.len() ==> (#[trigger] b.rights[r]).number <= top
}

/// The blocks go up the translation step by step: where a source line of a
/// block belongs, every earlier block has ended.
pub open spec fn blocks_stepped(blocks: Seq<BlockView>) -> bool {
    forall|i: int, j: int, a: int|
        0 <= i < j < blocks.len() && 0 <= a < blocks[j].lefts.len() ==> block_upto(
            #[trigger] blocks[i],
            (#[trigger] blocks[j].lefts[a]).last_both,
        )
}

proof fn lemma_block_upto_higher(b: BlockView, top: nat, higher: nat)
    requires
        block_upto(b, top),
        top <= higher,
    ensures
        block_upto(b, higher),
{
}

impl AlignState {
    /// What a pass keeps of the way its blocks go up the translation.
    pub open spec fn stepped(self) -> bool {
        &&& self.last_both_target <= self.target_line
        &&& forall|a: int|
            0 <= a < self.lefts.len() ==> (#[trigger] self.lefts[a]).last_both
                == self.last_both_target
        &&& forall|r: int|
            0 <= r < self.rights.len() ==> (#[trigger] self.rights[r]).number <= self.target_line
        &&& forall|i: int|
            0 <= i < self.blocks.len() ==> block_upto(
                #[trigger] self.blocks[i],
                self.last_both_target,
            )
        &&& blocks_stepped(self.blocks)
    }

    /// Closing the open run keeps the steps; the block it makes ends at or
    /// before `top`.
    proof fn lemma_flush_stepped(self, top: nat)
        requires
            self.stepped(),
            self.target_line <= top,
        ensures
            blocks_stepped(self.flush().blocks),
            forall|i: int|
                0 <= i < self.flush().blocks.len() ==> block_upto(
                    #[trigger] self.flush().blocks[i],
                    top,
                ),
    {
        let done = self.flush();
        let idx = lemma_flagged_only_picks(self.rights);
        let marked = flagged_only(self.rights);
        assert forall|r: int| 0 <= r < marked.len() implies (#[trigger] marked[r]).number
            <= self.target_line by {
            assert(marked[r] == self.rights[idx[r]]);
        }
        assert forall|i: int| 0 <= i < done.blocks.len() implies block_upto(
            #[trigger] done.blocks[i],
            top,
        ) by {
            if i < self.blocks.len() {
                assert(done.blocks[i] == self.blocks[i]);
                lemma_block_upto_higher(self.blocks[i], self.last_both_target, top);
            }
        }
        assert forall|i: int, j: int, a: int|
            0 <= i < j < done.blocks.len() && 0 <= a < done.blocks[j].lefts.len() implies block_upto(
            #[trigger] done.blocks[i],
            (#[trigger] done.blocks[j].lefts[a]).last_both,
        ) by {
            assert(done.blocks[i] == self.blocks[i]);
            if j < self.blocks.len() {
                assert(done.blocks[j] == self.blocks[j]);
            } else {
                assert(done.blocks[j].lefts[a] == self.lefts[a]);
            }
        }
    }

    proof fn lemma_run_stepped(items: Seq<DiffItem<Seq<char>>>)
        ensures
            AlignState::run(items).stepped(),
        decreases items.len(),
    {
        if items.len() > 0 {
            AlignState::lemma_run_stepped(items.drop_last());
            let before = AlignState::run(items.drop_last());
            match items.last() {
                DiffItem::Left(c) => {
                    let after = before.on_left(c);
                    assert forall|a: int| 0 <= a < after.lefts.len() implies (
                    #[trigger] after.lefts[a]).last_both == after.last_both_target by {
                        if a < before.lefts.len() {
                            assert(after.lefts[a] == before.lefts[a]);
                        }
                    }
                },
                DiffItem::Right(c) => {
                    let after = before.on_right(c);
                    assert forall|r: int| 0 <= r < after.rights.len() implies (
                    #[trigger] after.rights[r]).number <= after.target_line by {
                        if r < before.rights.len() {
                            assert(after.rights[r] == before.rights[r]);
                        }
                    }
                },
                DiffItem::Both(c, _) => {
                    before.lemma_flush_stepped(before.target_line + 1);
                    let after = before.on_both(c);
                    assert(after.blocks == before.flush().blocks);
                },
            }
        }
    }
}

/// The blocks of a pass go up the translation step by step.
pub proof fn law_blocks_stepped(items: Seq<DiffItem<Seq<char>>>)
    ensures
        blocks_stepped(aligned(items).0),
{
    AlignState::lemma_run_stepped(items);
    let end = AlignState::run(items);
    end.lemma_flush_stepped(end.target_line);
}

} // verus!
