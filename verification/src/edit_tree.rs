//! The tree that a run works on: one block for every node and every token
//! of the syntax tree but the whitespace, whose place is taken by the
//! whitespace record of the blocks around it.

use vstd::prelude::*;
use vstd::string::*;
use crate::syntax::{
    at_or_below,
    elem_end,
    lemma_chain_bound,
    lemma_chain_trans,
    link_ok,
    text_upto,
    Shape,
    SyntaxElement,
    SyntaxTree,
};
use crate::dsl::Space;
use crate::whitespace::{Gap, Whitespace};

verus! {

/// A node or a token of the syntax tree, as the passes see it.
#[derive(Clone, Copy, Debug)]
pub struct Block {
    /// The kind of the element.
    pub kind: u16,
    /// Whether the element is a token. A block that is none is a node.
    pub is_token: bool,
    /// The index of the parent block; the root names itself.
    pub parent: usize,
    /// The number of token blocks that stand before this block.
    pub ordinal: usize,
}

/// The blocks of one run, in pre-order, the whitespace record of each, and
/// the tokens among them. The blocks never change once they are built; the
/// passes of a run rewrite the whitespace records only.
#[derive(Clone, Debug)]
pub struct EditTree {
    /// The syntax tree that the blocks were built from. It holds the text
    /// of every token.
    pub source: SyntaxTree,
    /// All blocks; the root is the first.
    pub blocks: Vec<Block>,
    /// For every block, the index of its element in the syntax tree.
    pub elements: Vec<usize>,
    /// The whitespace record of every block, under the block's index.
    pub whitespace: Vec<Whitespace>,
    /// The indices of the token blocks, in the order of the text.
    pub tokens: Vec<usize>,
}

/// The number of elements before `i` that are no whitespace.
pub open spec fn kept_before(elems: Seq<SyntaxElement>, i: int) -> nat
    decreases i,
{
    if i <= 0 {
        0
    } else {
        kept_before(elems, i - 1) + if elems[i - 1].shape != Shape::Whitespace {
            1nat
        } else {
            0nat
        }
    }
}

/// The index of the last token before `i`, whitespace included; `-1` where
/// there is none.
pub open spec fn prev_token(elems: Seq<SyntaxElement>, i: int) -> int
    decreases i,
{
    if i <= 0 {
        -1
    } else if elems[i - 1].shape != Shape::Node {
        i - 1
    } else {
        prev_token(elems, i - 1)
    }
}

/// The index of the first token at or behind `i`, whitespace included; the
/// length of `elems` where there is none.
pub open spec fn next_token(elems: Seq<SyntaxElement>, i: int) -> int
    decreases elems.len() - i,
{
    if i >= elems.len() {
        elems.len() as int
    } else if i >= 0 && elems[i].shape != Shape::Node {
        i
    } else {
        next_token(elems, i + 1)
    }
}

/// The text of element `j` where it is whitespace, and nothing otherwise.
pub open spec fn trivia_at(elems: Seq<SyntaxElement>, j: int) -> Seq<char> {
    if 0 <= j < elems.len() && elems[j].shape == Shape::Whitespace {
        elems[j].text@
    } else {
        Seq::empty()
    }
}

/// The text of element `j` where it is whitespace and hangs under the
/// parent of element `i`, and nothing otherwise.
pub open spec fn sibling_trivia(elems: Seq<SyntaxElement>, i: int, j: int) -> Seq<char> {
    if 0 <= j < elems.len() && elems[j].shape == Shape::Whitespace && elems[j].parent
        == elems[i].parent {
        elems[j].text@
    } else {
        Seq::empty()
    }
}

/// The whitespace record that element `i` of the tree starts with. For a
/// node its two neighbours under the same parent count, where they are
/// whitespace: the element just before it and the element just behind the
/// last element below it. The root has no neighbours, and its record is
/// empty. For a token the tokens next to it in the text count, where they
/// are whitespace, under whatever parent they hang.
pub open spec fn whitespace_of(tree: &SyntaxTree, i: int) -> Whitespace {
    if tree.elems[i].shape == Shape::Node {
        Whitespace::of_trivia(
            sibling_trivia(tree.elems@, i, i - 1),
            sibling_trivia(tree.elems@, i, elem_end(tree.elems@, i, i + 1)),
        )
    } else {
        Whitespace::of_trivia(
            trivia_at(tree.elems@, prev_token(tree.elems@, i)),
            trivia_at(tree.elems@, next_token(tree.elems@, i + 1)),
        )
    }
}

/// The number of elements before `i` that are tokens other than whitespace.
pub open spec fn tokens_before(elems: Seq<SyntaxElement>, i: int) -> nat
    decreases i,
{
    if i <= 0 {
        0
    } else {
        tokens_before(elems, i - 1) + if elems[i - 1].shape == Shape::Token {
            1nat
        } else {
            0nat
        }
    }
}

/// The block of element `i`, which is no whitespace.
pub open spec fn block_of(elems: Seq<SyntaxElement>, i: int) -> Block {
    Block {
        kind: elems[i].kind,
        is_token: elems[i].shape == Shape::Token,
        parent: kept_before(elems, elems[i].parent as int) as usize,
        ordinal: tokens_before(elems, i) as usize,
    }
}

/// The blocks of the first `i` elements.
pub open spec fn blocks_upto(elems: Seq<SyntaxElement>, i: int) -> Seq<Block>
    decreases i,
{
    if i <= 0 {
        Seq::empty()
    } else if elems[i - 1].shape == Shape::Whitespace {
        blocks_upto(elems, i - 1)
    } else {
        blocks_upto(elems, i - 1).push(block_of(elems, i - 1))
    }
}

/// For the blocks of the first `i` elements, the index of the element of
/// each.
pub open spec fn elements_upto(elems: Seq<SyntaxElement>, i: int) -> Seq<usize>
    decreases i,
{
    if i <= 0 {
        Seq::empty()
    } else if elems[i - 1].shape == Shape::Whitespace {
        elements_upto(elems, i - 1)
    } else {
        elements_upto(elems, i - 1).push((i - 1) as usize)
    }
}

/// The whitespace records that the blocks of the first `i` elements start
/// with.
pub open spec fn records_upto(tree: &SyntaxTree, i: int) -> Seq<Whitespace>
    decreases i,
{
    if i <= 0 {
        Seq::empty()
    } else if tree.elems[i - 1].shape == Shape::Whitespace {
        records_upto(tree, i - 1)
    } else {
        records_upto(tree, i - 1).push(whitespace_of(tree, i - 1))
    }
}

/// The token blocks among the blocks of the first `i` elements.
pub open spec fn tokens_upto(elems: Seq<SyntaxElement>, i: int) -> Seq<usize>
    decreases i,
{
    if i <= 0 {
        Seq::empty()
    } else if elems[i - 1].shape == Shape::Token {
        tokens_upto(elems, i - 1).push(kept_before(elems, i - 1) as usize)
    } else {
        tokens_upto(elems, i - 1)
    }
}

/// Where element `i` of the tree is no whitespace, its block and its
/// whitespace record stand in `blocks` and `records`, behind those of the
/// elements before it.
pub open spec fn block_built(
    tree: &SyntaxTree,
    blocks: Seq<Block>,
    records: Seq<Whitespace>,
    i: int,
) -> bool {
    let k = kept_before(tree.elems@, i) as int;
    tree.elems[i].shape != Shape::Whitespace ==> blocks[k] == block_of(tree.elems@, i) && records[k]
        == whitespace_of(tree, i)
}

/// Block `k` stands for one of the first `n` elements.
pub open spec fn placed(elements: Seq<usize>, k: int, n: int) -> bool {
    elements[k] < n
}

/// One more token block, or none.
pub open spec fn token_step(block: Block) -> int {
    if block.is_token {
        1
    } else {
        0
    }
}

/// Block `k` hangs under a node that stands before it, counts the tokens
/// before it, and is listed among the tokens where it is one.
pub open spec fn block_ok(blocks: Seq<Block>, tokens: Seq<usize>, k: int) -> bool {
    &&& k == 0 ==> blocks[k].parent == 0 && !blocks[k].is_token && blocks[k].ordinal == 0
    &&& k >= 1 ==> blocks[k].parent < k && !blocks[blocks[k].parent as int].is_token
        && blocks[k].ordinal == blocks[k - 1].ordinal + token_step(blocks[k - 1])
    &&& blocks[k].ordinal <= tokens.len()
    &&& blocks[k].is_token ==> blocks[k].ordinal < tokens.len() && tokens[blocks[k].ordinal as int]
        == k
}

/// Entry `q` of the token list names a token block, the `q`-th of them.
pub open spec fn token_ok(blocks: Seq<Block>, tokens: Seq<usize>, q: int) -> bool {
    &&& tokens[q] < blocks.len()
    &&& blocks[tokens[q] as int].is_token
    &&& blocks[tokens[q] as int].ordinal == q
}

/// Block `j` is block `p` or stands below it: the parent links lead from
/// `j` up to `p`.
pub open spec fn block_below(blocks: Seq<Block>, j: int, p: int) -> bool
    decreases j,
{
    j == p || (0 < j < blocks.len() && p < j && blocks[j].parent < j && block_below(
        blocks,
        blocks[j].parent as int,
        p,
    ))
}

/// Block `k` follows right behind the last block at or below its parent:
/// the blocks stand in pre-order.
pub open spec fn block_nested(blocks: Seq<Block>, k: int) -> bool {
    k >= 1 ==> block_below(blocks, k - 1, blocks[k].parent as int)
}

/// The blocks form a tree in pre-order, so that the blocks below any block
/// follow it without a gap, and `tokens` lists its tokens.
pub open spec fn blocks_wf(blocks: Seq<Block>, tokens: Seq<usize>) -> bool {
    &&& blocks.len() >= 1
    &&& forall|k: int| 0 <= k < blocks.len() ==> #[trigger] block_ok(blocks, tokens, k)
    &&& forall|k: int| 0 <= k < blocks.len() ==> #[trigger] block_nested(blocks, k)
    &&& forall|q: int| 0 <= q < tokens.len() ==> #[trigger] token_ok(blocks, tokens, q)
    &&& tokens.len() == blocks.last().ordinal + token_step(blocks.last())
}

/// Where an element is no whitespace, the count of such elements grows
/// behind it, and it never shrinks.
pub proof fn lemma_kept_before_grows(elems: Seq<SyntaxElement>, j: int, i: int)
    requires
        0 <= j <= i <= elems.len(),
    ensures
        kept_before(elems, j) <= kept_before(elems, i),
        kept_before(elems, i) <= i,
        j < i && elems[j].shape != Shape::Whitespace ==> kept_before(elems, j) < kept_before(
            elems,
            i,
        ),
    decreases i,
{
    if i > 0 {
        if j < i {
            lemma_kept_before_grows(elems, j, i - 1);
        } else {
            lemma_kept_before_grows(elems, 0, i - 1);
        }
    }
}

/// Adding a block that hangs under a node of the list, and listing it where
/// it is a token, keeps the list a tree.
pub proof fn lemma_push_block(
    blocks: Seq<Block>,
    tokens: Seq<usize>,
    block: Block,
    blocks2: Seq<Block>,
    tokens2: Seq<usize>,
)
    requires
        forall|k: int| 0 <= k < blocks.len() ==> #[trigger] block_ok(blocks, tokens, k),
        forall|q: int| 0 <= q < tokens.len() ==> #[trigger] token_ok(blocks, tokens, q),
        blocks.len() >= 1 ==> tokens.len() == blocks.last().ordinal + token_step(blocks.last()),
        blocks.len() == 0 ==> tokens.len() == 0 && block.parent == 0 && !block.is_token,
        blocks.len() >= 1 ==> block.parent < blocks.len() && !blocks[block.parent as int].is_token,
        block.ordinal == tokens.len(),
        blocks.len() <= usize::MAX,
        blocks2 == blocks.push(block),
        block.is_token ==> tokens2 == tokens.push(blocks.len() as usize),
        !block.is_token ==> tokens2 == tokens,
    ensures
        forall|k: int| 0 <= k < blocks2.len() ==> #[trigger] block_ok(blocks2, tokens2, k),
        forall|q: int| 0 <= q < tokens2.len() ==> #[trigger] token_ok(blocks2, tokens2, q),
        tokens2.len() == blocks2.last().ordinal + token_step(blocks2.last()),
{
    assert forall|k: int| 0 <= k < blocks2.len() implies #[trigger] block_ok(blocks2, tokens2, k) by {
        if k < blocks.len() {
            assert(block_ok(blocks, tokens, k));
        }
    }
    assert forall|q: int| 0 <= q < tokens2.len() implies #[trigger] token_ok(blocks2, tokens2, q) by {
        if q < tokens.len() {
            assert(token_ok(blocks, tokens, q));
        }
    }
}

/// The text of element `j` where it is whitespace, and nothing otherwise.
fn trivia<'a>(tree: &'a SyntaxTree, j: usize) -> (res: &'a str)
    ensures
        res@ == trivia_at(tree.elems@, j as int),
{
    proof {
        reveal_strlit("");
        assert(""@ =~= Seq::<char>::empty());
    }
    if j < tree.elems.len() {
        match tree.elems[j].shape {
            Shape::Whitespace => tree.elems[j].text.as_str(),
            _ => "",
        }
    } else {
        ""
    }
}

/// Every block of a tree stands for an element that is no whitespace, and
/// it stands where the count of such elements before that element says.
pub proof fn lemma_elements_rank(elems: Seq<SyntaxElement>, i: int)
    requires
        0 <= i <= elems.len(),
        elems.len() <= usize::MAX,
    ensures
        elements_upto(elems, i).len() == kept_before(elems, i),
        forall|k: int|
            0 <= k < kept_before(elems, i) ==> {
                let e = #[trigger] elements_upto(elems, i)[k];
                &&& 0 <= e < i
                &&& elems[e as int].shape != Shape::Whitespace
                &&& kept_before(elems, e as int) == k
            },
    decreases i,
{
    if i > 0 {
        lemma_elements_rank(elems, i - 1);
        let before = elements_upto(elems, i - 1);
        let after = elements_upto(elems, i);
        assert forall|k: int| 0 <= k < kept_before(elems, i) implies {
            let e = #[trigger] after[k];
            &&& 0 <= e < i
            &&& elems[e as int].shape != Shape::Whitespace
            &&& kept_before(elems, e as int) == k
        } by {
            if k < before.len() {
                let e = before[k];
                assert(0 <= e < i - 1 && kept_before(elems, e as int) == k);
                assert(after[k] == e);
            } else {
                assert(after[k] == (i - 1) as usize);
            }
        }
    }
}

/// Where element `x` stands at or below node `p`, the block of the last
/// element up to `x` that is no whitespace stands at or below the block of
/// `p`.
pub proof fn lemma_block_chain(tree: &SyntaxTree, x: int, p: int)
    requires
        tree.wf(),
        0 <= p <= x < tree.elems.len(),
        tree.elems[p].shape == Shape::Node,
        at_or_below(tree.elems@, x, p),
    ensures
        block_below(
            blocks_upto(tree.elems@, tree.elems.len() as int),
            kept_before(tree.elems@, x + 1) - 1,
            kept_before(tree.elems@, p) as int,
        ),
    decreases x,
{
    let elems = tree.elems@;
    let n = elems.len() as int;
    let blocks = blocks_upto(elems, n);
    crate::laws::lemma_built_upto(tree, n);
    lemma_kept_before_grows(elems, p, x);
    lemma_kept_before_grows(elems, x, n);
    lemma_kept_before_grows(elems, x + 1, n);
    if x != p {
        assert(link_ok(elems, x));
        let up = elems[x].parent as int;
        lemma_chain_bound(elems, up, p);
        if elems[x].shape != Shape::Whitespace {
            lemma_block_chain(tree, up, p);
            lemma_kept_before_grows(elems, up, x);
            lemma_kept_before_grows(elems, p, up);
            let r = kept_before(elems, x) as int;
            assert(blocks[r] == block_of(elems, x));
            assert(kept_before(elems, up + 1) - 1 == kept_before(elems, up));
        } else {
            lemma_chain_trans(elems, x - 1, up, p);
            lemma_chain_bound(elems, x - 1, p);
            lemma_block_chain(tree, x - 1, p);
        }
    }
}

/// The blocks of a well-formed syntax tree stand in pre-order.
pub proof fn lemma_blocks_nested(tree: &SyntaxTree)
    requires
        tree.wf(),
    ensures
        forall|k: int|
            0 <= k < blocks_upto(tree.elems@, tree.elems.len() as int).len() ==> #[trigger] block_nested(
                blocks_upto(tree.elems@, tree.elems.len() as int),
                k,
            ),
{
    let elems = tree.elems@;
    let n = elems.len() as int;
    let blocks = blocks_upto(elems, n);
    crate::laws::lemma_built_upto(tree, n);
    assert(tree.elems.len() <= usize::MAX);
    lemma_elements_rank(elems, n);
    assert forall|k: int| 0 <= k < blocks.len() implies #[trigger] block_nested(blocks, k) by {
        if k >= 1 {
            let place = elements_upto(elems, n)[k];
            let e = place as int;
            assert(0 <= e < n && kept_before(elems, e) == k && elems[e].shape != Shape::Whitespace);
            assert(blocks[kept_before(elems, e) as int] == block_of(elems, e));
            assert(link_ok(elems, e));
            assert(e >= 1);
            let up = elems[e].parent as int;
            lemma_chain_bound(elems, e - 1, up);
            lemma_block_chain(tree, e - 1, up);
            lemma_kept_before_grows(elems, up, e);
            assert(blocks[k].parent == kept_before(elems, up));
        }
    }
}

/// The text of element `j` where it is whitespace and hangs under the
/// parent of element `i`, and nothing otherwise.
fn sibling<'a>(tree: &'a SyntaxTree, i: usize, j: usize) -> (res: &'a str)
    requires
        i < tree.elems.len(),
    ensures
        res@ == sibling_trivia(tree.elems@, i as int, j as int),
        j >= tree.elems.len() ==> res@ == sibling_trivia(tree.elems@, i as int, -1),
{
    proof {
        reveal_strlit("");
        assert(""@ =~= Seq::<char>::empty());
    }
    if j < tree.elems.len() && tree.elems[j].shape == Shape::Whitespace && tree.elems[j].parent
        == tree.elems[i].parent {
        tree.elems[j].text.as_str()
    } else {
        ""
    }
}

/// The last token before element `i`, whitespace included.
fn token_before(tree: &SyntaxTree, i: usize) -> (res: Option<usize>)
    requires
        i < tree.elems.len(),
    ensures
        match res {
            Some(p) => p == prev_token(tree.elems@, i as int),
            None => prev_token(tree.elems@, i as int) == -1,
        },
{
    let mut j: usize = i;
    while j > 0
        invariant
            j <= i < tree.elems.len(),
            prev_token(tree.elems@, j as int) == prev_token(tree.elems@, i as int),
        decreases j,
    {
        if tree.elems[j - 1].shape != Shape::Node {
            return Some(j - 1);
        }
        j -= 1;
    }
    None
}

/// The first token at or behind place `i`, whitespace included; the number
/// of elements where there is none.
fn token_behind(tree: &SyntaxTree, i: usize) -> (res: usize)
    requires
        i <= tree.elems.len(),
    ensures
        res == next_token(tree.elems@, i as int),
{
    let mut j: usize = i;
    while j < tree.elems.len()
        invariant
            i <= j <= tree.elems.len(),
            next_token(tree.elems@, j as int) == next_token(tree.elems@, i as int),
        decreases tree.elems.len() - j,
    {
        if tree.elems[j].shape != Shape::Node {
            return j;
        }
        j += 1;
    }
    j
}

impl EditTree {
    /// The tree is well formed.
    pub open spec fn wf(&self) -> bool {
        &&& self.source.wf()
        &&& blocks_wf(self.blocks@, self.tokens@)
        &&& self.whitespace.len() == self.blocks.len()
        &&& self.elements.len() == self.blocks.len()
        &&& forall|k: int|
            0 <= k < self.blocks.len() ==> #[trigger] placed(
                self.elements@,
                k,
                self.source.elems.len() as int,
            )
    }

    /// The tree is the one that is built from its source, with the
    /// whitespace records that it starts with.
    pub open spec fn fresh(&self) -> bool {
        let n = self.source.elems.len() as int;
        &&& self.blocks@ == blocks_upto(self.source.elems@, n)
        &&& self.elements@ == elements_upto(self.source.elems@, n)
        &&& self.whitespace@ == records_upto(&self.source, n)
        &&& self.tokens@ == tokens_upto(self.source.elems@, n)
    }

    /// Returns the block of element `i` of the tree, which is no whitespace,
    /// and the whitespace record that it starts with. `parent` and `ordinal`
    /// are the block's place among the blocks built so far.
    pub fn build_block(tree: &SyntaxTree, i: usize, parent: usize, ordinal: usize) -> (res: (
        Block,
        Whitespace,
    ))
        requires
            tree.wf(),
            i < tree.elems.len(),
            tree.elems[i as int].shape != Shape::Whitespace,
            parent == kept_before(tree.elems@, tree.elems[i as int].parent as int),
            ordinal == tokens_before(tree.elems@, i as int),
        ensures
            res.0 == block_of(tree.elems@, i as int),
            res.1 == whitespace_of(tree, i as int),
    {
        let whitespace = if tree.elems[i].shape == Shape::Node {
            let lead = if i >= 1 {
                sibling(tree, i, i - 1)
            } else {
                sibling(tree, i, tree.elems.len())
            };
            let trail = sibling(tree, i, tree.end_of(i));
            Whitespace::new(lead, trail)
        } else {
            let lead = match token_before(tree, i) {
                Some(p) => trivia(tree, p),
                None => trivia(tree, tree.elems.len()),
            };
            let trail = trivia(tree, token_behind(tree, i + 1));
            Whitespace::new(lead, trail)
        };
        let block = Block {
            kind: tree.elems[i].kind,
            is_token: tree.elems[i].shape == Shape::Token,
            parent,
            ordinal,
        };
        (block, whitespace)
    }

    /// Builds the blocks of a syntax tree. Whitespace tokens get no block:
    /// what they say is kept in the whitespace records of the blocks around
    /// them.
    pub fn new(tree: SyntaxTree) -> (res: EditTree)
        requires
            tree.wf(),
        ensures
            res.wf(),
            res.fresh(),
            res.source == tree,
            res.blocks.len() == kept_before(tree.elems@, tree.elems.len() as int),
            forall|i: int|
                0 <= i < tree.elems.len() ==> #[trigger] block_built(
                    &tree,
                    res.blocks@,
                    res.whitespace@,
                    i,
                ),
    {
        EditTree::build_tree(tree)
    }

    /// Builds the blocks of a syntax tree, element by element.
    pub fn build_tree(source: SyntaxTree) -> (res: EditTree)
        requires
            source.wf(),
        ensures
            res.wf(),
            res.fresh(),
            res.source == source,
            res.blocks.len() == kept_before(source.elems@, source.elems.len() as int),
            forall|i: int|
                0 <= i < source.elems.len() ==> #[trigger] block_built(
                    &source,
                    res.blocks@,
                    res.whitespace@,
                    i,
                ),
    {
        let tree = &source;
        let n = tree.elems.len();
        let mut blocks: Vec<Block> = Vec::new();
        let mut elements: Vec<usize> = Vec::new();
        let mut whitespace: Vec<Whitespace> = Vec::new();
        let mut tokens: Vec<usize> = Vec::new();
        let mut rank: Vec<usize> = Vec::new();
        let mut i: usize = 0;
        while i < n
            invariant
                0 <= i <= n,
                n == tree.elems.len(),
                tree.wf(),
                rank.len() == i,
                forall|j: int| 0 <= j < i ==> #[trigger] rank[j] == kept_before(tree.elems@, j),
                blocks.len() == kept_before(tree.elems@, i as int),
                whitespace.len() == blocks.len(),
                elements.len() == blocks.len(),
                tokens.len() == tokens_before(tree.elems@, i as int),
                blocks@ == blocks_upto(tree.elems@, i as int),
                elements@ == elements_upto(tree.elems@, i as int),
                whitespace@ == records_upto(tree, i as int),
                tokens@ == tokens_upto(tree.elems@, i as int),
                forall|k: int| 0 <= k < blocks.len() ==> #[trigger] placed(elements@, k, n as int),
                i >= 1 ==> blocks.len() >= 1,
                forall|j: int|
                    0 <= j < i ==> #[trigger] block_built(tree, blocks@, whitespace@, j),
                forall|k: int| 0 <= k < blocks.len() ==> #[trigger] block_ok(blocks@, tokens@, k),
                forall|q: int| 0 <= q < tokens.len() ==> #[trigger] token_ok(blocks@, tokens@, q),
                blocks.len() >= 1 ==> tokens.len() == blocks@.last().ordinal + token_step(
                    blocks@.last(),
                ),
                blocks.len() == 0 ==> tokens.len() == 0,
            decreases n - i,
        {
            proof {
                assert(link_ok(tree.elems@, i as int));
                lemma_kept_before_grows(tree.elems@, i as int, n as int);
            }
            rank.push(blocks.len());
            let shape = tree.elems[i].shape;
            if shape != Shape::Whitespace {
                let parent = rank[tree.elems[i].parent];
                let ghost old_blocks = blocks@;
                let ghost old_tokens = tokens@;
                proof {
                    if i >= 1 {
                        let up = tree.elems[i as int].parent as int;
                        lemma_kept_before_grows(tree.elems@, up, i as int);
                        assert(block_built(tree, blocks@, whitespace@, up));
                    }
                }
                let ghost old_whitespace = whitespace@;
                let (block, record) = EditTree::build_block(tree, i, parent, tokens.len());
                if block.is_token {
                    tokens.push(blocks.len());
                }
                let ghost old_elements = elements@;
                blocks.push(block);
                elements.push(i);
                whitespace.push(record);
                proof {
                    lemma_push_block(old_blocks, old_tokens, block, blocks@, tokens@);
                    assert forall|k: int| 0 <= k < blocks.len() implies #[trigger] placed(
                        elements@,
                        k,
                        n as int,
                    ) by {
                        if k < old_blocks.len() {
                            assert(placed(old_elements, k, n as int));
                        }
                    }
                    assert forall|j: int| 0 <= j < i + 1 implies #[trigger] block_built(
                        tree,
                        blocks@,
                        whitespace@,
                        j,
                    ) by {
                        if j < i {
                            lemma_kept_before_grows(tree.elems@, j, i as int);
                            assert(block_built(tree, old_blocks, old_whitespace, j));
                        }
                    }
                }
            }
            i += 1;
        }
        proof {
            assert(link_ok(tree.elems@, 0));
            lemma_blocks_nested(tree);
        }
        EditTree { source, blocks, elements, whitespace, tokens }
    }
}

/// The offset at which the text of element `i` starts: the number of
/// characters of the text before it.
pub open spec fn range_start(elems: Seq<SyntaxElement>, i: int) -> nat {
    text_upto(elems, i).len()
}

/// The offset at which the text of element `i` and of the elements below it
/// ends.
pub open spec fn range_end(elems: Seq<SyntaxElement>, i: int) -> nat {
    text_upto(elems, elem_end(elems, i, i + 1)).len()
}

/// The text grows with every element.
pub proof fn lemma_text_grows(elems: Seq<SyntaxElement>, a: int, b: int)
    requires
        a <= b,
    ensures
        text_upto(elems, a).len() <= text_upto(elems, b).len(),
    decreases b - a,
{
    if a < b {
        lemma_text_grows(elems, a, b - 1);
    }
}

/// The texts of the elements `from..to`, one after the other.
pub open spec fn span_text(elems: Seq<SyntaxElement>, from: int, to: int) -> Seq<char>
    decreases to - from,
{
    if to <= from {
        Seq::empty()
    } else {
        span_text(elems, from, to - 1) + elems[to - 1].text@
    }
}

/// The kinds of the nodes above block `i`, the nearest first.
pub open spec fn above_kinds(blocks: Seq<Block>, i: int) -> Seq<u16>
    decreases i,
{
    if i <= 0 || i >= blocks.len() || blocks[i].parent >= i {
        Seq::empty()
    } else {
        seq![blocks[blocks[i].parent as int].kind] + above_kinds(blocks, blocks[i].parent as int)
    }
}

/// The nodes above block `i`, the nearest first.
pub open spec fn ancestors(blocks: Seq<Block>, i: int) -> Seq<usize>
    decreases i,
{
    if i <= 0 || i >= blocks.len() || blocks[i].parent >= i {
        Seq::empty()
    } else {
        seq![blocks[i].parent] + ancestors(blocks, blocks[i].parent as int)
    }
}

/// The first token that is reached from block `i` by going down into first
/// children, the block itself where it is a token; `-1` where the way down
/// ends in a node without children.
pub open spec fn anchor(blocks: Seq<Block>, i: int) -> int
    decreases blocks.len() - i,
{
    if i < 0 || i >= blocks.len() {
        -1
    } else if blocks[i].is_token {
        i
    } else if i + 1 < blocks.len() && blocks[i + 1].parent == i {
        anchor(blocks, i + 1)
    } else {
        -1
    }
}

/// The gap in front of the `q`-th token as it stands resolved. The record of
/// the token and that of the token before it both speak of this gap: the
/// side that a rule has decided counts, the token's own side first.
pub open spec fn lead_of(records: Seq<Whitespace>, tokens: Seq<usize>, q: int) -> Gap {
    let own = records[tokens[q] as int];
    if q >= 1 && !own.fixed.0 && records[tokens[q - 1] as int].fixed.1 {
        records[tokens[q - 1] as int].trail_gap()
    } else {
        own.lead_gap()
    }
}

/// The indices `0..n`.
pub open spec fn indices(n: nat) -> Seq<usize> {
    Seq::new(n, |i: int| i as usize)
}

/// The indices of the nodes among the first `n` blocks.
pub open spec fn nodes_upto(blocks: Seq<Block>, n: int) -> Seq<usize>
    decreases n,
{
    if n <= 0 {
        Seq::empty()
    } else if blocks[n - 1].is_token {
        nodes_upto(blocks, n - 1)
    } else {
        nodes_upto(blocks, n - 1).push((n - 1) as usize)
    }
}

/// The anchor of a block is a token at or behind it.
pub proof fn lemma_anchor_range(blocks: Seq<Block>, i: int)
    requires
        0 <= i < blocks.len(),
    ensures
        anchor(blocks, i) == -1 || (i <= anchor(blocks, i) < blocks.len() && blocks[anchor(
            blocks,
            i,
        )].is_token),
    decreases blocks.len() - i,
{
    if !blocks[i].is_token && i + 1 < blocks.len() && blocks[i + 1].parent == i {
        lemma_anchor_range(blocks, i + 1);
    }
}

impl Block {
    /// The kind of the element.
    pub fn kind(&self) -> (res: u16)
        ensures
            res == self.kind,
    {
        self.kind
    }

    /// Whether the block is a token.
    pub fn is_leaf(&self) -> (res: bool)
        ensures
            res == self.is_token,
    {
        self.is_token
    }

}

impl EditTree {
    /// The indent of block `i` as it stands resolved: the indent that the
    /// gap in front of its first token gives; where the block reaches no
    /// token, the indent that its own record gives.
    pub open spec fn indent_of(&self, i: int) -> u32 {
        let t = anchor(self.blocks@, i);
        if t >= 0 {
            lead_of(self.whitespace@, self.tokens@, self.blocks[t].ordinal as int).indent()
        } else {
            self.whitespace[i].lead_gap().indent()
        }
    }

    /// The number of blocks.
    pub fn len(&self) -> (n: usize)
        ensures
            n == self.blocks.len(),
    {
        self.blocks.len()
    }

    /// The text of block `i`: that of its token, and nothing for a node.
    pub fn as_str(&self, i: usize) -> (res: &str)
        requires
            self.wf(),
            i < self.blocks.len(),
        ensures
            res@ == self.source.elems[self.elements[i as int] as int].text@,
    {
        proof {
            assert(placed(self.elements@, i as int, self.source.elems.len() as int));
        }
        self.source.elems[self.elements[i]].text.as_str()
    }

    /// The text that block `i` covers, as a string of its own: the text of
    /// a token, and for a node the text of every token below it, whitespace
    /// included.
    pub fn to_string(&self, i: usize) -> (res: String)
        requires
            self.wf(),
            i < self.blocks.len(),
        ensures
            res@ == span_text(
                self.source.elems@,
                self.elements[i as int] as int,
                elem_end(
                    self.source.elems@,
                    self.elements[i as int] as int,
                    self.elements[i as int] + 1,
                ),
            ),
    {
        proof {
            assert(placed(self.elements@, i as int, self.source.elems.len() as int));
            assert(link_ok(self.source.elems@, self.elements[i as int] as int));
        }
        let from = self.elements[i];
        let to = self.source.end_of(from);
        let mut res = String::new();
        let mut j: usize = from;
        while j < to
            invariant
                from <= j <= to <= self.source.elems.len(),
                res@ == span_text(self.source.elems@, from as int, j as int),
            decreases to - j,
        {
            res.append(self.source.elems[j].text.as_str());
            j += 1;
        }
        res
    }

    /// The range of the text that block `i` covers, as the offsets of its
    /// first character and of the character behind its last one, counted in
    /// characters from the start of the text. There is no range where the
    /// end does not fit a `usize`.
    pub fn text_range(&self, i: usize) -> (res: Option<(usize, usize)>)
        requires
            self.wf(),
            i < self.blocks.len(),
        ensures
            match res {
                Some(range) => range.0 == range_start(self.source.elems@, self.elements[i as int] as int)
                    && range.1 == range_end(self.source.elems@, self.elements[i as int] as int),
                None => range_end(self.source.elems@, self.elements[i as int] as int) > usize::MAX,
            },
    {
        proof {
            assert(placed(self.elements@, i as int, self.source.elems.len() as int));
        }
        let from = self.elements[i];
        let to = self.source.end_of(from);
        let mut at: usize = 0;
        let mut start: usize = 0;
        let mut j: usize = 0;
        while j < to
            invariant
                from < to <= self.source.elems.len(),
                i < self.elements.len(),
                from == self.elements[i as int],
                to == elem_end(self.source.elems@, from as int, from + 1),
                0 <= j <= to,
                at == text_upto(self.source.elems@, j as int).len(),
                j > from ==> start == text_upto(self.source.elems@, from as int).len(),
            decreases to - j,
        {
            if j == from {
                start = at;
            }
            let len = self.source.elems[j].text.as_str().unicode_len();
            if len > usize::MAX - at {
                proof {
                    assert(text_upto(self.source.elems@, j + 1).len() == at + len);
                    lemma_text_grows(self.source.elems@, j + 1, to as int);
                }
                return None;
            }
            at = at + len;
            j += 1;
        }
        Some((start, at))
    }

    /// The whole text that the tree was built from.
    pub fn text(&self) -> (res: String)
        ensures
            res@ == self.source.text_spec(),
    {
        self.source.text()
    }

    /// The root block.
    pub fn root(&self) -> (res: &Block)
        requires
            self.wf(),
        ensures
            *res == self.blocks[0],
    {
        &self.blocks[0]
    }

    /// The last token in the order of the text, where there is a token.
    pub fn last_token(&self) -> (res: Option<usize>)
        ensures
            res.is_none() <==> self.tokens.len() == 0,
            res.is_some() ==> res.unwrap() == self.tokens@.last(),
    {
        if self.tokens.len() == 0 {
            None
        } else {
            Some(self.tokens[self.tokens.len() - 1])
        }
    }

    /// All blocks in pre-order, the root included.
    pub fn walk(&self) -> (res: Vec<usize>)
        ensures
            res@ == indices(self.blocks.len() as nat),
    {
        let mut res: Vec<usize> = Vec::new();
        let mut i: usize = 0;
        while i < self.blocks.len()
            invariant
                0 <= i <= self.blocks.len(),
                res@ == indices(i as nat),
            decreases self.blocks.len() - i,
        {
            res.push(i);
            i += 1;
            assert(res@ =~= indices(i as nat));
        }
        res
    }

    /// All blocks in pre-order but the root.
    pub fn walk_exc_root(&self) -> (res: Vec<usize>)
        requires
            self.wf(),
        ensures
            res@ == indices(self.blocks.len() as nat).skip(1),
    {
        let mut res: Vec<usize> = Vec::new();
        let mut i: usize = 1;
        while i < self.blocks.len()
            invariant
                1 <= i <= self.blocks.len(),
                res@ == indices(i as nat).skip(1),
            decreases self.blocks.len() - i,
        {
            res.push(i);
            i += 1;
            assert(res@ =~= indices(i as nat).skip(1));
        }
        res
    }

    /// The token blocks in the order of the text.
    pub fn walk_tokens(&self) -> (res: Vec<usize>)
        ensures
            res@ == self.tokens@,
    {
        let mut res: Vec<usize> = Vec::new();
        let mut q: usize = 0;
        while q < self.tokens.len()
            invariant
                0 <= q <= self.tokens.len(),
                res@ == self.tokens@.take(q as int),
            decreases self.tokens.len() - q,
        {
            res.push(self.tokens[q]);
            q += 1;
            assert(res@ =~= self.tokens@.take(q as int));
        }
        assert(self.tokens@.take(self.tokens.len() as int) =~= self.tokens@);
        res
    }

    /// The node blocks in pre-order, the root included.
    pub fn walk_nodes(&self) -> (res: Vec<usize>)
        ensures
            res@ == nodes_upto(self.blocks@, self.blocks.len() as int),
    {
        let mut res: Vec<usize> = Vec::new();
        let mut i: usize = 0;
        while i < self.blocks.len()
            invariant
                0 <= i <= self.blocks.len(),
                res@ == nodes_upto(self.blocks@, i as int),
            decreases self.blocks.len() - i,
        {
            if !self.blocks[i].is_token {
                res.push(i);
            }
            i += 1;
        }
        res
    }

    /// The nodes above block `i`, the nearest first.
    pub fn ancestors_nodes(&self, i: usize) -> (res: Vec<usize>)
        requires
            self.wf(),
            i < self.blocks.len(),
        ensures
            res@ == ancestors(self.blocks@, i as int),
    {
        let mut res: Vec<usize> = Vec::new();
        let mut j: usize = i;
        while j > 0
            invariant
                self.wf(),
                0 <= j <= i < self.blocks.len(),
                res@ + ancestors(self.blocks@, j as int) == ancestors(self.blocks@, i as int),
            decreases j,
        {
            proof {
                assert(block_ok(self.blocks@, self.tokens@, j as int));
            }
            let up = self.blocks[j].parent;
            let ghost before = res@;
            res.push(up);
            proof {
                assert(ancestors(self.blocks@, j as int) == seq![up] + ancestors(
                    self.blocks@,
                    up as int,
                ));
                assert(res@ + ancestors(self.blocks@, up as int) =~= before + (seq![up] + ancestors(
                    self.blocks@,
                    up as int,
                )));
            }
            j = up;
        }
        assert(res@ + ancestors(self.blocks@, 0) =~= res@);
        res
    }

    /// The kinds of the nodes above block `i`, the nearest first.
    pub fn kinds_above(&self, i: usize) -> (res: Vec<u16>)
        requires
            self.wf(),
            i < self.blocks.len(),
        ensures
            res@ == above_kinds(self.blocks@, i as int),
    {
        let mut res: Vec<u16> = Vec::new();
        let mut j: usize = i;
        while j > 0
            invariant
                self.wf(),
                0 <= j <= i < self.blocks.len(),
                res@ + above_kinds(self.blocks@, j as int) == above_kinds(self.blocks@, i as int),
            decreases j,
        {
            proof {
                assert(block_ok(self.blocks@, self.tokens@, j as int));
            }
            let up = self.blocks[j].parent;
            let kind = self.blocks[up].kind;
            let ghost before = res@;
            res.push(kind);
            proof {
                assert(above_kinds(self.blocks@, j as int) == seq![kind] + above_kinds(
                    self.blocks@,
                    up as int,
                ));
                assert(res@ + above_kinds(self.blocks@, up as int) =~= before + (seq![kind]
                    + above_kinds(self.blocks@, up as int)));
            }
            j = up;
        }
        assert(res@ + above_kinds(self.blocks@, 0) =~= res@);
        res
    }

    /// The first token that is reached from block `i` by going down into
    /// first children; the block itself where it is a token.
    pub fn anchor_token(&self, i: usize) -> (res: Option<usize>)
        requires
            i < self.blocks.len(),
        ensures
            match res {
                Some(t) => t == anchor(self.blocks@, i as int),
                None => anchor(self.blocks@, i as int) == -1,
            },
    {
        let mut j: usize = i;
        while !self.blocks[j].is_token
            invariant
                i <= j < self.blocks.len(),
                anchor(self.blocks@, j as int) == anchor(self.blocks@, i as int),
            decreases self.blocks.len() - j,
        {
            if j + 1 < self.blocks.len() && self.blocks[j + 1].parent == j {
                j += 1;
            } else {
                return None;
            }
        }
        Some(j)
    }

    /// The whitespace record of block `i`.
    pub fn get_whitespace(&self, i: usize) -> (res: Whitespace)
        requires
            i < self.whitespace.len(),
        ensures
            res == self.whitespace[i as int],
    {
        self.whitespace[i]
    }

    /// The blanks in front of block `i` and behind it, as its record has
    /// them.
    pub fn space_value(&self, i: usize) -> (res: (u32, u32))
        requires
            i < self.whitespace.len(),
        ensures
            res == self.whitespace[i as int].text_len,
    {
        self.whitespace[i].text_len
    }

    /// Whether the gaps in front of block `i` and behind it hold a line
    /// break, as its record has them.
    pub fn eol_value(&self, i: usize) -> (res: (bool, bool))
        requires
            i < self.whitespace.len(),
        ensures
            res == self.whitespace[i as int].new_line,
    {
        self.whitespace[i].new_line
    }

    /// Whether the gap in front of block `i` begins with a line break, as
    /// its record has it.
    pub fn starts_with_lf(&self, i: usize) -> (res: bool)
        requires
            i < self.whitespace.len(),
        ensures
            res == self.whitespace[i as int].starts_with_lf,
    {
        self.whitespace[i].starts_with_lf
    }

    /// The gap in front of the `q`-th token as it stands resolved.
    pub fn resolved_lead(&self, q: usize) -> (res: Gap)
        requires
            self.wf(),
            q < self.tokens.len(),
        ensures
            res == lead_of(self.whitespace@, self.tokens@, q as int),
    {
        proof {
            assert(token_ok(self.blocks@, self.tokens@, q as int));
            if q >= 1 {
                assert(token_ok(self.blocks@, self.tokens@, q - 1));
            }
        }
        let own = self.whitespace[self.tokens[q]];
        if q >= 1 && !own.fixed.0 && self.whitespace[self.tokens[q - 1]].fixed.1 {
            self.whitespace[self.tokens[q - 1]].trailing()
        } else {
            own.leading()
        }
    }

    /// The indent of block `i` as it stands resolved.
    pub fn get_indent(&self, i: usize) -> (res: u32)
        requires
            self.wf(),
            i < self.blocks.len(),
        ensures
            res == self.indent_of(i as int),
    {
        proof {
            lemma_anchor_range(self.blocks@, i as int);
        }
        let gap = match self.anchor_token(i) {
            Some(t) => {
                proof {
                    assert(block_ok(self.blocks@, self.tokens@, t as int));
                }
                self.resolved_lead(self.blocks[t].ordinal)
            },
            None => self.whitespace[i].leading(),
        };
        if gap.newline {
            gap.spaces
        } else {
            0
        }
    }

    /// Gives block `t` the indent `indent`: the blanks in front of it. The
    /// line breaks of its record stay as they are.
    pub fn set_indent(&mut self, t: usize, indent: u32)
        requires
            t < old(self).whitespace.len(),
        ensures
            final(self).source == old(self).source,
            final(self).blocks == old(self).blocks,
            final(self).elements == old(self).elements,
            final(self).tokens == old(self).tokens,
            final(self).whitespace@ == old(self).whitespace@.update(
                t as int,
                old(self).whitespace[t as int].with_indent(indent),
            ),
    {
        let mut record = self.whitespace[t];
        record.set_indent(indent);
        self.whitespace.set(t, record);
    }

    /// Applies a rule's space to the record of block `i`.
    pub fn set_spacing(&mut self, i: usize, space: Space)
        requires
            i < old(self).whitespace.len(),
        ensures
            final(self).source == old(self).source,
            final(self).blocks == old(self).blocks,
            final(self).elements == old(self).elements,
            final(self).tokens == old(self).tokens,
            final(self).whitespace@ == old(self).whitespace@.update(
                i as int,
                old(self).whitespace[i as int].spaced_by(space),
            ),
    {
        let mut record = self.whitespace[i];
        record.apply_space_fix(space);
        self.whitespace.set(i, record);
    }
}

} // verus!
