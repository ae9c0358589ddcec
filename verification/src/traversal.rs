//! Walks over the blocks below one block, in pre-order.

use vstd::prelude::*;
use crate::edit_tree::{block_below, block_nested, block_ok, blocks_wf, Block, EditTree};

verus! {

/// The indices `from..to`.
pub open spec fn span(from: int, to: int) -> Seq<usize> {
    Seq::new((to - from) as nat, |k: int| (from + k) as usize)
}

/// The first block at or behind `j` that does not stand below block `i`;
/// the number of blocks where there is none. Blocks are in pre-order, so
/// the blocks below `i` are those between `i` and this one.
pub open spec fn subtree_end(blocks: Seq<Block>, i: int, j: int) -> int
    decreases blocks.len() - j,
{
    if j >= blocks.len() {
        blocks.len() as int
    } else if blocks[j].parent < i {
        j
    } else {
        subtree_end(blocks, i, j + 1)
    }
}

/// The blocks of `from..to` that are tokens, or those that are nodes.
pub open spec fn picked(blocks: Seq<Block>, from: int, to: int, tokens: bool) -> Seq<usize>
    decreases to - from,
{
    if to <= from {
        Seq::empty()
    } else if blocks[to - 1].is_token == tokens {
        picked(blocks, from, to - 1, tokens).push((to - 1) as usize)
    } else {
        picked(blocks, from, to - 1, tokens)
    }
}

/// Block `i` and the blocks before it under the same parent, the nearest
/// first, as they are found from `j` downwards.
pub open spec fn siblings_from(blocks: Seq<Block>, i: int, j: int) -> Seq<usize>
    decreases j,
{
    if j < 0 || j >= blocks.len() || j <= blocks[i].parent {
        Seq::empty()
    } else if blocks[j].parent == blocks[i].parent {
        seq![j as usize] + siblings_from(blocks, i, j - 1)
    } else {
        siblings_from(blocks, i, j - 1)
    }
}

/// The blocks among `i + 1..n` whose parent is block `i`.
pub open spec fn children_upto(blocks: Seq<Block>, i: int, n: int) -> Seq<usize>
    decreases n - i,
{
    if n <= i + 1 {
        Seq::empty()
    } else if blocks[n - 1].parent == i {
        children_upto(blocks, i, n - 1).push((n - 1) as usize)
    } else {
        children_upto(blocks, i, n - 1)
    }
}

/// The list holds the tokens below block `i`, or the nodes below it: every
/// entry is such a block, the entries ascend, so that none comes twice and
/// all come in pre-order, and no such block is left out.
pub open spec fn walks_below(blocks: Seq<Block>, i: int, tokens: bool, list: Seq<usize>) -> bool {
    &&& forall|p: int|
        0 <= p < list.len() ==> i < (#[trigger] list[p]) < blocks.len() && block_below(
            blocks,
            list[p] as int,
            i,
        ) && blocks[list[p] as int].is_token == tokens
    &&& forall|a: int, b: int| 0 <= a < b < list.len() ==> list[a] < list[b]
    &&& forall|d: int|
        i < d < blocks.len() && blocks[d].is_token == tokens && #[trigger] block_below(blocks, d, i)
            ==> list.contains(d as usize)
}

/// The blocks that are picked from a range are blocks of the range of the
/// kind asked for; they ascend, and none of that kind is left out.
pub proof fn lemma_picked(blocks: Seq<Block>, from: int, to: int, tokens: bool)
    requires
        0 <= from,
        to <= blocks.len(),
        blocks.len() <= usize::MAX,
    ensures
        forall|p: int|
            0 <= p < picked(blocks, from, to, tokens).len() ==> from <= (#[trigger] picked(
                blocks,
                from,
                to,
                tokens,
            )[p]) < to && blocks[picked(blocks, from, to, tokens)[p] as int].is_token == tokens,
        forall|a: int, b: int|
            0 <= a < b < picked(blocks, from, to, tokens).len() ==> picked(blocks, from, to, tokens)[a]
                < picked(blocks, from, to, tokens)[b],
        forall|d: int|
            from <= d < to && blocks[d].is_token == tokens ==> picked(
                blocks,
                from,
                to,
                tokens,
            ).contains(d as usize),
    decreases to - from,
{
    if to > from {
        lemma_picked(blocks, from, to - 1, tokens);
        let before = picked(blocks, from, to - 1, tokens);
        let after = picked(blocks, from, to, tokens);
        assert forall|p: int| 0 <= p < after.len() implies from <= (#[trigger] after[p]) < to
            && blocks[after[p] as int].is_token == tokens by {
            if p < before.len() {
                assert(from <= before[p] < to - 1);
            }
        }
        assert forall|a: int, b: int| 0 <= a < b < after.len() implies after[a] < after[b] by {
            if b < before.len() {
                assert(before[a] < before[b]);
            } else {
                assert(before[a] < to - 1);
            }
        }
        assert forall|d: int| from <= d < to && blocks[d].is_token == tokens implies after.contains(
            d as usize,
        ) by {
            if d < to - 1 {
                let w = choose|w: int| 0 <= w < before.len() && before[w] == d as usize;
                assert(after[w] == d as usize);
            } else {
                assert(after[after.len() - 1] == d as usize);
            }
        }
    }
}

/// The blocks `i..end` are block `i` and the blocks below it, and no
/// others.
pub open spec fn covers(blocks: Seq<Block>, i: int, end: int) -> bool {
    forall|j: int| 0 <= j < blocks.len() ==> (#[trigger] block_below(blocks, j, i)) == (i <= j < end)
}

/// A block stands behind everything else that it stands below.
pub proof fn lemma_below_bound(blocks: Seq<Block>, x: int, p: int)
    requires
        block_below(blocks, x, p),
    ensures
        p <= x,
{
}

/// What stands at or below a block stands at or below everything that the
/// block stands at or below.
pub proof fn lemma_below_trans(blocks: Seq<Block>, x: int, a: int, b: int)
    requires
        block_below(blocks, x, a),
        block_below(blocks, a, b),
    ensures
        block_below(blocks, x, b),
    decreases x,
{
    if x != a {
        lemma_below_trans(blocks, blocks[x].parent as int, a, b);
        lemma_below_bound(blocks, a, b);
    }
}

/// Up to the end of the blocks below block `i`, every block hangs under a
/// block from `i` on; the block at the end, where there is one, does not.
pub proof fn lemma_end_found(blocks: Seq<Block>, i: int, from: int, j: int)
    requires
        0 <= from <= j,
        j < subtree_end(blocks, i, from),
    ensures
        blocks[j].parent >= i,
        subtree_end(blocks, i, from) <= blocks.len(),
        subtree_end(blocks, i, from) < blocks.len() ==> blocks[subtree_end(blocks, i, from)].parent
            < i,
    decreases blocks.len() - from,
{
    if from < blocks.len() && blocks[from].parent >= i {
        if from < j {
            lemma_end_found(blocks, i, from + 1, j);
        } else {
            lemma_end_last(blocks, i, from + 1);
        }
    }
}

/// The block at the end of the blocks below block `i`, where there is one,
/// does not hang under a block from `i` on.
pub proof fn lemma_end_last(blocks: Seq<Block>, i: int, from: int)
    requires
        0 <= from,
    ensures
        from <= subtree_end(blocks, i, from) || subtree_end(blocks, i, from) == blocks.len(),
        subtree_end(blocks, i, from) <= blocks.len() || from > blocks.len(),
        subtree_end(blocks, i, from) < blocks.len() ==> blocks[subtree_end(blocks, i, from)].parent
            < i,
    decreases blocks.len() - from,
{
    if from < blocks.len() && blocks[from].parent >= i {
        lemma_end_last(blocks, i, from + 1);
    }
}

/// Every block between block `i` and the end of the blocks below it stands
/// below it.
pub proof fn lemma_inside(blocks: Seq<Block>, tokens: Seq<usize>, i: int, j: int)
    requires
        blocks_wf(blocks, tokens),
        0 <= i <= j < subtree_end(blocks, i, i + 1),
    ensures
        block_below(blocks, j, i),
    decreases j,
{
    if j > i {
        lemma_end_found(blocks, i, i + 1, j);
        assert(block_ok(blocks, tokens, j));
        let up = blocks[j].parent as int;
        lemma_inside(blocks, tokens, i, up);
    }
}

/// No block from the end of the blocks below block `i` on stands below it.
pub proof fn lemma_outside(blocks: Seq<Block>, tokens: Seq<usize>, i: int, j: int)
    requires
        blocks_wf(blocks, tokens),
        0 <= i < blocks.len(),
        subtree_end(blocks, i, i + 1) <= j < blocks.len(),
    ensures
        !block_below(blocks, j, i),
    decreases j,
{
    let end = subtree_end(blocks, i, i + 1);
    lemma_end_last(blocks, i, i + 1);
    if j == end {
        if block_below(blocks, j, i) {
            lemma_below_bound(blocks, blocks[j].parent as int, i);
        }
    } else {
        lemma_outside(blocks, tokens, i, j - 1);
        assert(block_nested(blocks, j));
        if block_below(blocks, j, i) {
            lemma_below_trans(blocks, j - 1, blocks[j].parent as int, i);
        }
    }
}

/// In a tree of blocks, the blocks from block `i` up to the end of the
/// blocks below it are that block and the blocks below it, and no others.
pub proof fn lemma_subtree_is_range(blocks: Seq<Block>, tokens: Seq<usize>, i: int)
    requires
        blocks_wf(blocks, tokens),
        0 <= i < blocks.len(),
    ensures
        covers(blocks, i, subtree_end(blocks, i, i + 1)),
{
    let end = subtree_end(blocks, i, i + 1);
    assert forall|j: int| 0 <= j < blocks.len() implies (#[trigger] block_below(blocks, j, i)) == (i
        <= j < end) by {
        if j < i {
            if block_below(blocks, j, i) {
                lemma_below_bound(blocks, j, i);
            }
        } else if j < end {
            lemma_inside(blocks, tokens, i, j);
        } else {
            lemma_outside(blocks, tokens, i, j);
        }
    }
}

impl EditTree {
    /// The index just behind the last block below block `i`: the blocks
    /// from `i` up to it are block `i` and the blocks below it.
    pub fn end_of(&self, i: usize) -> (res: usize)
        requires
            self.wf(),
            i < self.blocks.len(),
        ensures
            res == subtree_end(self.blocks@, i as int, i + 1),
            i < res <= self.blocks.len(),
            covers(self.blocks@, i as int, res as int),
    {
        proof {
            lemma_subtree_is_range(self.blocks@, self.tokens@, i as int);
        }
        let mut j: usize = i + 1;
        while j < self.blocks.len() && self.blocks[j].parent >= i
            invariant
                i < j <= self.blocks.len(),
                subtree_end(self.blocks@, i as int, j as int) == subtree_end(
                    self.blocks@,
                    i as int,
                    i + 1,
                ),
            decreases self.blocks.len() - j,
        {
            j += 1;
        }
        j
    }

    /// The blocks `from..to`.
    fn range(from: usize, to: usize) -> (res: Vec<usize>)
        requires
            from <= to,
        ensures
            res@ == span(from as int, to as int),
    {
        let mut res: Vec<usize> = Vec::new();
        let mut k: usize = from;
        while k < to
            invariant
                from <= k <= to,
                res@ == span(from as int, k as int),
            decreases to - k,
        {
            res.push(k);
            k += 1;
            assert(res@ =~= span(from as int, k as int));
        }
        res
    }

    /// The blocks of `from..to` that are tokens, or those that are nodes.
    fn pick(&self, from: usize, to: usize, tokens: bool) -> (res: Vec<usize>)
        requires
            from <= to <= self.blocks.len(),
        ensures
            res@ == picked(self.blocks@, from as int, to as int, tokens),
    {
        let mut res: Vec<usize> = Vec::new();
        let mut k: usize = from;
        while k < to
            invariant
                from <= k <= to <= self.blocks.len(),
                res@ == picked(self.blocks@, from as int, k as int, tokens),
            decreases to - k,
        {
            if self.blocks[k].is_token == tokens {
                res.push(k);
            }
            k += 1;
        }
        res
    }

    /// Block `i` and all blocks below it, in pre-order.
    pub fn order_flatten_blocks_inc(&self, i: usize) -> (res: Vec<usize>)
        requires
            self.wf(),
            i < self.blocks.len(),
        ensures
            covers(self.blocks@, i as int, subtree_end(self.blocks@, i as int, i + 1)),
            res@ == span(i as int, subtree_end(self.blocks@, i as int, i + 1)),
    {
        EditTree::range(i, self.end_of(i))
    }

    /// All blocks below block `i`, in pre-order, without the block itself.
    pub fn order_flatten_blocks_exc_curr(&self, i: usize) -> (res: Vec<usize>)
        requires
            self.wf(),
            i < self.blocks.len(),
        ensures
            covers(self.blocks@, i as int, subtree_end(self.blocks@, i as int, i + 1)),
            res@ == span(i + 1, subtree_end(self.blocks@, i as int, i + 1)),
    {
        EditTree::range(i + 1, self.end_of(i))
    }

    /// The tokens below block `i`, in the order of the text.
    pub fn order_flatten_blocks_tokens(&self, i: usize) -> (res: Vec<usize>)
        requires
            self.wf(),
            i < self.blocks.len(),
        ensures
            covers(self.blocks@, i as int, subtree_end(self.blocks@, i as int, i + 1)),
            res@ == picked(
                self.blocks@,
                i + 1,
                subtree_end(self.blocks@, i as int, i + 1),
                true,
            ),
            walks_below(self.blocks@, i as int, true, res@),
    {
        let end = self.end_of(i);
        proof {
            lemma_picked(self.blocks@, i + 1, end as int, true);
        }
        self.pick(i + 1, end, true)
    }

    /// Block `i` and then the nodes below it, in pre-order.
    pub fn order_flatten_blocks_nodes(&self, i: usize) -> (res: Vec<usize>)
        requires
            self.wf(),
            i < self.blocks.len(),
        ensures
            covers(self.blocks@, i as int, subtree_end(self.blocks@, i as int, i + 1)),
            res@ == seq![i] + picked(
                self.blocks@,
                i + 1,
                subtree_end(self.blocks@, i as int, i + 1),
                false,
            ),
            walks_below(self.blocks@, i as int, false, res@.skip(1)),
    {
        let mut res: Vec<usize> = Vec::new();
        res.push(i);
        let end = self.end_of(i);
        proof {
            lemma_picked(self.blocks@, i + 1, end as int, false);
        }
        let mut below = self.pick(i + 1, end, false);
        let ghost head = res@;
        let ghost tail = below@;
        res.append(&mut below);
        assert(res@ =~= head + tail);
        assert(head =~= seq![i]);
        assert(res@.skip(1) =~= tail);
        res
    }

    /// Block `i` and all blocks below it, in pre-order.
    pub fn traverse_inc(&self, i: usize) -> (res: Vec<usize>)
        requires
            self.wf(),
            i < self.blocks.len(),
        ensures
            covers(self.blocks@, i as int, subtree_end(self.blocks@, i as int, i + 1)),
            res@ == span(i as int, subtree_end(self.blocks@, i as int, i + 1)),
    {
        self.order_flatten_blocks_inc(i)
    }

    /// All blocks below block `i`, in pre-order, without the block itself.
    pub fn traverse_exc(&self, i: usize) -> (res: Vec<usize>)
        requires
            self.wf(),
            i < self.blocks.len(),
        ensures
            covers(self.blocks@, i as int, subtree_end(self.blocks@, i as int, i + 1)),
            res@ == span(i + 1, subtree_end(self.blocks@, i as int, i + 1)),
    {
        self.order_flatten_blocks_exc_curr(i)
    }

    /// The blocks right below block `i`, in the order of the text.
    pub fn children(&self, i: usize) -> (res: Vec<usize>)
        requires
            i < self.blocks.len(),
        ensures
            res@ == children_upto(self.blocks@, i as int, self.blocks.len() as int),
    {
        let mut res: Vec<usize> = Vec::new();
        let mut j: usize = i + 1;
        while j < self.blocks.len()
            invariant
                i < j <= self.blocks.len(),
                res@ == children_upto(self.blocks@, i as int, j as int),
            decreases self.blocks.len() - j,
        {
            if self.blocks[j].parent == i {
                res.push(j);
            }
            j += 1;
        }
        res
    }

    /// Block `i` and the blocks before it under the same parent, the
    /// nearest first.
    pub fn ancestors_tokens(&self, i: usize) -> (res: Vec<usize>)
        requires
            self.wf(),
            i < self.blocks.len(),
        ensures
            res@ == siblings_from(self.blocks@, i as int, i as int),
    {
        proof {
            assert(block_ok(self.blocks@, self.tokens@, i as int));
        }
        let up = self.blocks[i].parent;
        let mut res: Vec<usize> = Vec::new();
        let mut j: usize = i;
        while j > up
            invariant
                up <= j <= i < self.blocks.len(),
                up == self.blocks[i as int].parent,
                res@ + siblings_from(self.blocks@, i as int, j as int) == siblings_from(
                    self.blocks@,
                    i as int,
                    i as int,
                ),
            decreases j,
        {
            let ghost before = res@;
            let ghost rest = siblings_from(self.blocks@, i as int, j - 1);
            if self.blocks[j].parent == up {
                res.push(j);
                assert(res@ + rest =~= before + (seq![j] + rest));
            }
            j -= 1;
        }
        assert(res@ + siblings_from(self.blocks@, i as int, j as int) =~= res@);
        res
    }
}

} // verus!
