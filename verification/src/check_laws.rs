//! What holds of every comparison of two texts.

use vstd::prelude::*;
use crate::align::{aligned, flagged_only, AlignState, BlockView};
use crate::align_laws::{
    lemma_flagged_only_push, lemma_flagged_only_twice, lemma_increasing_ascends, ordered_block,
};
use crate::diffs_laws::none_left;
use crate::align_laws::{
    block_upto, blocks_stepped, law_blocks_stepped, law_lines_in_file_order,
};
use crate::check::resolved_blocks;
use crate::diffs::DiffItem;
use crate::matcher::{LineView, MismatchLineView, Threshold};
use crate::similar::{garbage_of, resolved};
use crate::similar_laws::{
    anchors_ascend, law_missing_anchors_ascend, lemma_resolved_places, missing_anchor,
    missing_follow_edits, modified_number, places_upto,
};

verus! {

proof fn lemma_garbage_of_push(s: Seq<LineView>, l: LineView)
    ensures
        garbage_of(s.push(l)) == if l.flagged() {
            garbage_of(s).push(MismatchLineView::Garbage { target: l })
        } else {
            garbage_of(s)
        },
{
    lemma_flagged_only_push(s, l);
    if l.flagged() {
        assert(garbage_of(s.push(l)) =~= garbage_of(s).push(
            MismatchLineView::Garbage { target: l },
        ));
    }
}

proof fn lemma_run_no_left(items: Seq<DiffItem<Seq<char>>>, th: Threshold)
    requires
        none_left(items),
    ensures
        AlignState::run(items).lefts == Seq::<LineView>::empty(),
        resolved_blocks(AlignState::run(items).blocks, th) + garbage_of(
            AlignState::run(items).rights,
        ) == garbage_of(AlignState::run(items).right_only),
    decreases items.len(),
{
    if items.len() == 0 {
        assert(resolved_blocks(Seq::<BlockView>::empty(), th) + garbage_of(
            Seq::<LineView>::empty(),
        ) =~= garbage_of(Seq::<LineView>::empty()));
    } else {
        let init = items.drop_last();
        assert(none_left(init)) by {
            assert forall|i: int| 0 <= i < init.len() implies !((#[trigger] init[i]) is Left) by {
                assert(init[i] == items[i]);
            }
        }
        lemma_run_no_left(init, th);
        let before = AlignState::run(init);
        assert(items.last() == items[items.len() - 1]);
        match items.last() {
            DiffItem::Left(c) => {},
            DiffItem::Right(c) => {
                let after = before.on_right(c);
                let line = after.rights.last();
                lemma_garbage_of_push(before.rights, line);
                lemma_garbage_of_push(before.right_only, line);
                assert(resolved_blocks(after.blocks, th) + garbage_of(after.rights) =~= garbage_of(
                    after.right_only,
                ));
            },
            DiffItem::Both(c, _) => {
                let moved = AlignState {
                    source_line: before.source_line + 1,
                    target_line: before.target_line + 1,
                    last_both_source: before.source_line + 1,
                    last_both_target: before.target_line + 1,
                    fence: before.fence.after_both(c),
                    ..before
                };
                moved.lemma_flush_no_left(th);
            },
        }
    }
}

impl AlignState {
    proof fn lemma_flush_no_left(self, th: Threshold)
        requires
            self.lefts == Seq::<LineView>::empty(),
        ensures
            self.flush().lefts == Seq::<LineView>::empty(),
            resolved_blocks(self.flush().blocks, th) == resolved_blocks(self.blocks, th)
                + garbage_of(self.rights),
            garbage_of(self.flush().rights) == Seq::<MismatchLineView>::empty(),
            self.flush().right_only == self.right_only,
    {
        let marked = flagged_only(self.rights);
        assert(garbage_of(Seq::<LineView>::empty()) =~= Seq::<MismatchLineView>::empty());
        if marked.len() > 0 {
            let block = BlockView { lefts: self.lefts, rights: marked };
            let blocks = self.blocks.push(block);
            assert(blocks.drop_last() =~= self.blocks);
            assert(blocks.last() == block);
            lemma_flagged_only_twice(self.rights);
            assert(resolved(block.lefts, block.rights, th) == garbage_of(marked));
            assert(garbage_of(marked) == garbage_of(self.rights));
        } else {
            assert(garbage_of(self.rights) =~= Seq::<MismatchLineView>::empty());
            assert(resolved_blocks(self.blocks, th) + garbage_of(self.rights) =~= resolved_blocks(
                self.blocks,
                th,
            ));
        }
    }
}

/// Where every source line found its partner, the findings are exactly the
/// marked lines that only the translation has, each as garbage and in their
/// order: none is dropped, and none is taken for a missing line.
pub proof fn law_marked_lines_surface(items: Seq<DiffItem<Seq<char>>>, th: Threshold)
    requires
        none_left(items),
    ensures
        resolved_blocks(aligned(items).0, th) == garbage_of(aligned(items).1),
{
    lemma_run_no_left(items, th);
    let end = AlignState::run(items);
    end.lemma_flush_no_left(th);
    assert(resolved_blocks(end.blocks, th) + garbage_of(end.rights) =~= resolved_blocks(
        end.flush().blocks,
        th,
    ));
}

/// Within every block of a comparison, the place where a missing line
/// belongs never lies before the place of a missing line that comes earlier.
pub proof fn law_block_anchors_ascend(items: Seq<DiffItem<Seq<char>>>, th: Threshold)
    ensures
        forall|i: int|
            0 <= i < aligned(items).0.len() ==> anchors_ascend(
                resolved((#[trigger] aligned(items).0[i]).lefts, aligned(items).0[i].rights, th),
            ),
{
    law_lines_in_file_order(items);
    assert forall|i: int| 0 <= i < aligned(items).0.len() implies anchors_ascend(
        resolved((#[trigger] aligned(items).0[i]).lefts, aligned(items).0[i].rights, th),
    ) by {
        let b = aligned(items).0[i];
        assert(ordered_block(b));
        lemma_increasing_ascends(b.rights);
        law_missing_anchors_ascend(b.lefts, b.rights, th);
    }
}

proof fn lemma_resolved_blocks_places(blocks: Seq<BlockView>, th: Threshold, top: nat)
    requires
        forall|i: int| 0 <= i < blocks.len() ==> ordered_block(#[trigger] blocks[i]),
        blocks_stepped(blocks),
        forall|i: int| 0 <= i < blocks.len() ==> block_upto(#[trigger] blocks[i], top),
    ensures
        anchors_ascend(resolved_blocks(blocks, th)),
        missing_follow_edits(resolved_blocks(blocks, th)),
        places_upto(resolved_blocks(blocks, th), top),
    decreases blocks.len(),
{
    if blocks.len() > 0 {
        let init = blocks.drop_last();
        let last = blocks.last();
        assert(last == blocks[blocks.len() - 1]);
        assert forall|i: int| 0 <= i < init.len() implies ordered_block(#[trigger] init[i]) by {
            assert(init[i] == blocks[i]);
        }
        assert(blocks_stepped(init)) by {
            assert forall|i: int, j: int, a: int|
                0 <= i < j < init.len() && 0 <= a < init[j].lefts.len() implies block_upto(
                #[trigger] init[i],
                (#[trigger] init[j].lefts[a]).last_both,
            ) by {
                assert(init[i] == blocks[i] && init[j] == blocks[j]);
                assert(block_upto(blocks[i], blocks[j].lefts[a].last_both));
            }
        }
        // where the last block begins, or `top` if it has no source line
        let floor = if last.lefts.len() > 0 {
            last.lefts[0].last_both
        } else {
            top
        };
        assert(floor <= top);
        assert forall|i: int| 0 <= i < init.len() implies block_upto(#[trigger] init[i], floor) by {
            assert(init[i] == blocks[i]);
            if last.lefts.len() > 0 {
                assert(block_upto(blocks[i], blocks[blocks.len() - 1].lefts[0].last_both));
            }
        }
        lemma_resolved_blocks_places(init, th, floor);
        lemma_increasing_ascends(last.rights);
        lemma_resolved_places(last.lefts, last.rights, th, top);
        let a = resolved_blocks(init, th);
        let b = resolved(last.lefts, last.rights, th);
        let s = a + b;
        assert(resolved_blocks(blocks, th) == s);
        assert forall|i: int, j: int|
            0 <= i <= j < s.len() && missing_anchor(#[trigger] s[i]) is Some && missing_anchor(
                #[trigger] s[j],
            ) is Some implies missing_anchor(s[i])->0 <= missing_anchor(s[j])->0 by {
            if j < a.len() {
                assert(s[i] == a[i] && s[j] == a[j]);
            } else if i >= a.len() {
                assert(s[i] == b[i - a.len()] && s[j] == b[j - a.len()]);
            } else {
                assert(s[i] == a[i] && s[j] == b[j - a.len()]);
            }
        }
        assert forall|i: int, j: int|
            0 <= i < j < s.len() && modified_number(#[trigger] s[i]) is Some && missing_anchor(
                #[trigger] s[j],
            ) is Some implies modified_number(s[i])->0 <= missing_anchor(s[j])->0 by {
            if j < a.len() {
                assert(s[i] == a[i] && s[j] == a[j]);
            } else if i >= a.len() {
                assert(s[i] == b[i - a.len()] && s[j] == b[j - a.len()]);
            } else {
                assert(s[i] == a[i] && s[j] == b[j - a.len()]);
            }
        }
        assert forall|i: int| 0 <= i < s.len() implies (missing_anchor(
            #[trigger] s[i],
        ) matches Some(x) ==> x <= top) && (modified_number(s[i]) matches Some(n) ==> n
            <= top) by {
            if i < a.len() {
                assert(s[i] == a[i]);
            } else {
                assert(s[i] == b[i - a.len()]);
            }
        }
    }
}

proof fn lemma_blocks_have_top(blocks: Seq<BlockView>) -> (top: nat)
    ensures
        forall|i: int| 0 <= i < blocks.len() ==> block_upto(#[trigger] blocks[i], top),
    decreases blocks.len(),
{
    if blocks.len() == 0 {
        0
    } else {
        let before = lemma_blocks_have_top(blocks.drop_last());
        let own = lemma_lines_have_top(blocks.last().lefts, blocks.last().rights);
        let top = if before > own {
            before
        } else {
            own
        };
        assert forall|i: int| 0 <= i < blocks.len() implies block_upto(#[trigger] blocks[i], top) by {
            if i < blocks.len() - 1 {
                assert(blocks.drop_last()[i] == blocks[i]);
                assert(block_upto(blocks.drop_last()[i], before));
            } else {
                assert(blocks[i] == blocks.last());
            }
        }
        top
    }
}

proof fn lemma_lines_have_top(lefts: Seq<LineView>, rights: Seq<LineView>) -> (top: nat)
    ensures
        block_upto(BlockView { lefts, rights }, top),
    decreases lefts.len() + rights.len(),
{
    if lefts.len() > 0 {
        let before = lemma_lines_have_top(lefts.drop_last(), rights);
        let top = if before > lefts.last().last_both {
            before
        } else {
            lefts.last().last_both
        };
        assert forall|a: int| 0 <= a < lefts.len() implies (#[trigger] lefts[a]).last_both
            <= top by {
            if a < lefts.len() - 1 {
                assert(lefts.drop_last()[a] == lefts[a]);
                assert((BlockView { lefts: lefts.drop_last(), rights }).lefts[a].last_both
                    <= before);
            }
        }
        assert forall|r: int| 0 <= r < rights.len() implies (#[trigger] rights[r]).number
            <= top by {
            assert((BlockView { lefts: lefts.drop_last(), rights }).rights[r].number <= before);
        }
        top
    } else if rights.len() > 0 {
        let before = lemma_lines_have_top(lefts, rights.drop_last());
        let top = if before > rights.last().number {
            before
        } else {
            rights.last().number
        };
        assert forall|r: int| 0 <= r < rights.len() implies (#[trigger] rights[r]).number
            <= top by {
            if r < rights.len() - 1 {
                assert(rights.drop_last()[r] == rights[r]);
                assert((BlockView { lefts, rights: rights.drop_last() }).rights[r].number
                    <= before);
            }
        }
        top
    } else {
        0
    }
}

/// Over all the findings of a comparison, block after block: the place
/// where a missing line belongs never lies before the place of a missing
/// line that comes earlier, and never before an edited line that comes
/// earlier.
pub proof fn law_file_anchors_ascend(items: Seq<DiffItem<Seq<char>>>, th: Threshold)
    ensures
        anchors_ascend(resolved_blocks(aligned(items).0, th)),
        missing_follow_edits(resolved_blocks(aligned(items).0, th)),
{
    law_lines_in_file_order(items);
    law_blocks_stepped(items);
    let top = lemma_blocks_have_top(aligned(items).0);
    lemma_resolved_blocks_places(aligned(items).0, th, top);
}

} // verus!
