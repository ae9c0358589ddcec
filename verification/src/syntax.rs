//! The lossless syntax tree that the formatter reads.
//!
//! A tree is stored flat, in pre-order: element `0` is the root node and every
//! other element names its parent, which stands before it. Whitespace tokens
//! are elements like any other, so the text of the tree is the text of its
//! tokens, one after the other.

use vstd::prelude::*;
use vstd::string::*;

verus! {

/// What an element of the tree is.
#[derive(Clone, Copy, Debug, PartialEq, Eq, Structural)]
pub enum Shape {
    /// An inner node: it has no text of its own.
    Node,
    /// A token that carries meaning (comments count as such).
    Token,
    /// A token made of blanks and line breaks only.
    Whitespace,
}

/// One node or token of the tree.
#[derive(Clone, Debug)]
pub struct SyntaxElement {
    /// The kind that the grammar gives the element.
    pub kind: u16,
    /// Whether it is a node, a token or whitespace.
    pub shape: Shape,
    /// The text of a token; empty for a node.
    pub text: String,
    /// The index of the parent; the root names itself.
    pub parent: usize,
}

/// A finished tree.
#[derive(Clone, Debug)]
pub struct SyntaxTree {
    /// The elements in pre-order.
    pub elems: Vec<SyntaxElement>,
}

/// Element `j` is element `p` or stands below it: the parent links lead
/// from `j` up to `p`.
pub open spec fn at_or_below(elems: Seq<SyntaxElement>, j: int, p: int) -> bool
    decreases j,
{
    j == p || (0 < j < elems.len() && p < j && elems[j].parent < j && at_or_below(
        elems,
        elems[j].parent as int,
        p,
    ))
}

/// The first element at or behind `j` that does not hang under an element
/// from `i` on; the number of elements where there is none. In a tree in
/// pre-order the elements below `i` are those between `i` and the first
/// such element behind it.
pub open spec fn elem_end(elems: Seq<SyntaxElement>, i: int, j: int) -> int
    decreases elems.len() - j,
{
    if j >= elems.len() {
        elems.len() as int
    } else if elems[j].parent < i {
        j
    } else {
        elem_end(elems, i, j + 1)
    }
}

/// Element `i` hangs under a node that stands before it, and it follows
/// right behind the last element at or below that node: the elements stand
/// in pre-order. A node has no text of its own.
pub open spec fn link_ok(elems: Seq<SyntaxElement>, i: int) -> bool {
    &&& i >= 1 ==> elems[i].parent < i && elems[elems[i].parent as int].shape == Shape::Node
        && at_or_below(elems, i - 1, elems[i].parent as int)
    &&& elems[i].shape == Shape::Node ==> elems[i].text@.len() == 0
}

/// The elements are those of a tree in pre-order: the first is the root,
/// and the elements below any element follow it without a gap.
pub open spec fn links_wf(elems: Seq<SyntaxElement>) -> bool {
    &&& elems.len() >= 1
    &&& elems[0].shape == Shape::Node
    &&& elems[0].parent == 0
    &&& forall|i: int| 0 <= i < elems.len() ==> #[trigger] link_ok(elems, i)
}

/// The texts of all tokens of `elems[..n]` in order, whitespace included.
pub open spec fn text_upto(elems: Seq<SyntaxElement>, n: int) -> Seq<char>
    decreases n,
{
    if n <= 0 {
        Seq::empty()
    } else {
        text_upto(elems, n - 1) + elems[n - 1].text@
    }
}

/// What stands behind the elements that a chain of parent links runs
/// through does not count for the chain.
pub proof fn lemma_chain_prefix(elems: Seq<SyntaxElement>, more: Seq<SyntaxElement>, j: int, p: int)
    requires
        j < elems.len(),
    ensures
        at_or_below(elems + more, j, p) == at_or_below(elems, j, p),
    decreases j,
{
    if j != p && 0 < j && p < j && elems[j].parent < j {
        lemma_chain_prefix(elems, more, elems[j].parent as int, p);
    }
}

/// What stands at or below an element stands at or below the parent of
/// that element.
pub proof fn lemma_chain_up(elems: Seq<SyntaxElement>, x: int, c: int)
    requires
        at_or_below(elems, x, c),
        0 < c < elems.len(),
        elems[c].parent < c,
    ensures
        at_or_below(elems, x, elems[c].parent as int),
    decreases x,
{
    let p = elems[c].parent as int;
    if x != c {
        lemma_chain_up(elems, elems[x].parent as int, c);
        lemma_chain_bound(elems, elems[x].parent as int, c);
    } else {
        assert(at_or_below(elems, p, p));
    }
}

/// What stands at or below an element stands at or below everything that
/// the element stands at or below.
pub proof fn lemma_chain_trans(elems: Seq<SyntaxElement>, x: int, a: int, b: int)
    requires
        at_or_below(elems, x, a),
        at_or_below(elems, a, b),
    ensures
        at_or_below(elems, x, b),
    decreases x,
{
    if x != a {
        lemma_chain_trans(elems, elems[x].parent as int, a, b);
        lemma_chain_bound(elems, a, b);
    }
}

/// An element stands behind everything else that it stands below.
pub proof fn lemma_chain_bound(elems: Seq<SyntaxElement>, x: int, p: int)
    requires
        at_or_below(elems, x, p),
    ensures
        p <= x,
{
}

impl SyntaxTree {
    /// The tree is well formed.
    pub open spec fn wf(&self) -> bool {
        links_wf(self.elems@)
    }

    /// The whole text that the tree stands for.
    pub open spec fn text_spec(&self) -> Seq<char> {
        text_upto(self.elems@, self.elems.len() as int)
    }

    /// Whether element `j` is element `p` or stands below it, in a tree
    /// whose elements before `j + 1` are linked as those of a tree are.
    fn reaches(&self, j: usize, p: usize) -> (res: bool)
        requires
            j < self.elems.len(),
            forall|k: int| 0 <= k <= j ==> #[trigger] link_ok(self.elems@, k),
        ensures
            res == at_or_below(self.elems@, j as int, p as int),
    {
        let mut k: usize = j;
        while k > p
            invariant
                k <= j < self.elems.len(),
                forall|c: int| 0 <= c <= j ==> #[trigger] link_ok(self.elems@, c),
                at_or_below(self.elems@, k as int, p as int) == at_or_below(
                    self.elems@,
                    j as int,
                    p as int,
                ),
            decreases k,
        {
            proof {
                assert(link_ok(self.elems@, k as int));
            }
            k = self.elems[k].parent;
        }
        k == p
    }

    /// Whether the tree is well formed.
    pub fn is_valid(&self) -> (res: bool)
        ensures
            res == self.wf(),
    {
        let n = self.elems.len();
        if n == 0 {
            return false;
        }
        if self.elems[0].shape != Shape::Node || self.elems[0].parent != 0 {
            return false;
        }
        let mut i: usize = 0;
        while i < n
            invariant
                0 <= i <= n,
                n == self.elems.len(),
                forall|k: int| 0 <= k < i ==> #[trigger] link_ok(self.elems@, k),
            decreases n - i,
        {
            let elem = &self.elems[i];
            let hangs = i == 0 || (elem.parent < i && self.elems[elem.parent].shape == Shape::Node
                && self.reaches(i - 1, elem.parent));
            let fits = elem.shape != Shape::Node || elem.text.as_str().unicode_len() == 0;
            if !(hangs && fits) {
                assert(!link_ok(self.elems@, i as int));
                return false;
            }
            i += 1;
        }
        true
    }

    /// The number of elements, whitespace included.
    pub fn len(&self) -> (n: usize)
        ensures
            n == self.elems.len(),
    {
        self.elems.len()
    }

    /// The index just behind the last element below element `i`.
    pub fn end_of(&self, i: usize) -> (res: usize)
        requires
            i < self.elems.len(),
        ensures
            res == elem_end(self.elems@, i as int, i + 1),
            i < res <= self.elems.len(),
    {
        let mut j: usize = i + 1;
        while j < self.elems.len() && self.elems[j].parent >= i
            invariant
                i < j <= self.elems.len(),
                elem_end(self.elems@, i as int, j as int) == elem_end(self.elems@, i as int, i + 1),
            decreases self.elems.len() - j,
        {
            j += 1;
        }
        j
    }

    /// The whole text that the tree stands for: every token, in order.
    pub fn text(&self) -> (res: String)
        ensures
            res@ == self.text_spec(),
    {
        let mut res = String::new();
        let mut i: usize = 0;
        while i < self.elems.len()
            invariant
                0 <= i <= self.elems.len(),
                res@ == text_upto(self.elems@, i as int),
            decreases self.elems.len() - i,
        {
            res.append(self.elems[i].text.as_str());
            i += 1;
        }
        res
    }
}

/// Builds a tree element by element, in the order of the text.
#[derive(Clone, Debug)]
pub struct TreeBuilder {
    /// The elements so far.
    pub elems: Vec<SyntaxElement>,
    /// The nodes that are still open, the root first, each the parent of
    /// the next.
    pub open: Vec<usize>,
}

/// Entry `k` of the open nodes names a node of the tree, the child of the
/// entry before it.
pub open spec fn open_ok(elems: Seq<SyntaxElement>, open: Seq<usize>, k: int) -> bool {
    &&& open[k] < elems.len()
    &&& elems[open[k] as int].shape == Shape::Node
    &&& k >= 1 ==> open[k] >= 1 && elems[open[k] as int].parent == open[k - 1]
}

impl TreeBuilder {
    /// The builder is well formed: its elements are those of a tree, and
    /// the last of them stands at or below the innermost open node.
    pub open spec fn wf(&self) -> bool {
        &&& links_wf(self.elems@)
        &&& self.open.len() >= 1
        &&& self.open[0] == 0
        &&& forall|k: int| 0 <= k < self.open.len() ==> #[trigger] open_ok(self.elems@, self.open@, k)
        &&& at_or_below(self.elems@, self.elems.len() - 1, self.current() as int)
    }

    /// The node that the next element will be put under.
    pub open spec fn current(&self) -> usize {
        self.open[self.open.len() - 1]
    }

    /// Starts a tree whose root has the given kind. The root is open.
    pub fn new(root_kind: u16) -> (res: Self)
        ensures
            res.wf(),
            res.elems.len() == 1,
            res.elems[0].kind == root_kind,
            res.elems[0].shape == Shape::Node,
            res.elems[0].parent == 0,
            res.elems[0].text@.len() == 0,
            res.open@ == seq![0usize],
    {
        let root = SyntaxElement { kind: root_kind, shape: Shape::Node, text: String::new(), parent: 0 };
        let mut elems: Vec<SyntaxElement> = Vec::new();
        elems.push(root);
        let mut open: Vec<usize> = Vec::new();
        open.push(0);
        let res = TreeBuilder { elems, open };
        proof {
            assert(link_ok(res.elems@, 0));
            assert(open_ok(res.elems@, res.open@, 0));
        }
        res
    }

    /// Appends one element under the current node and gives its index.
    fn append(&mut self, kind: u16, shape: Shape, text: String) -> (idx: usize)
        requires
            old(self).wf(),
            shape == Shape::Node ==> text@.len() == 0,
        ensures
            links_wf(final(self).elems@),
            idx == old(self).elems.len(),
            final(self).elems@ == old(self).elems@.push(
                (SyntaxElement { kind, shape, text, parent: old(self).current() }),
            ),
            final(self).open@ == old(self).open@,
            forall|k: int|
                0 <= k < final(self).open.len() ==> #[trigger] open_ok(
                    final(self).elems@,
                    final(self).open@,
                    k,
                ),
            at_or_below(final(self).elems@, idx as int, old(self).current() as int),
    {
        let parent = self.open[self.open.len() - 1];
        let idx = self.elems.len();
        let ghost before = self.elems@;
        let ghost element = SyntaxElement { kind, shape, text, parent };
        self.elems.push(SyntaxElement { kind, shape, text, parent });
        proof {
            let after = self.elems@;
            assert(after =~= before + seq![element]);
            assert(open_ok(before, self.open@, self.open.len() - 1));
            assert forall|i: int| 0 <= i < after.len() implies #[trigger] link_ok(after, i) by {
                if i < idx {
                    assert(link_ok(before, i));
                    if i >= 1 {
                        lemma_chain_prefix(before, seq![element], i - 1, before[i].parent as int);
                    }
                } else {
                    lemma_chain_prefix(before, seq![element], idx - 1, parent as int);
                }
            }
            assert forall|k: int| 0 <= k < self.open.len() implies #[trigger] open_ok(
                after,
                self.open@,
                k,
            ) by {
                assert(open_ok(before, self.open@, k));
            }
            assert(at_or_below(after, parent as int, parent as int));
        }
        idx
    }

    /// Opens a node of the given kind under the current node.
    pub fn start_node(&mut self, kind: u16)
        requires
            old(self).wf(),
        ensures
            final(self).wf(),
            final(self).elems.len() == old(self).elems.len() + 1,
            final(self).elems@.take(old(self).elems.len() as int) == old(self).elems@,
            final(self).elems@.last().kind == kind,
            final(self).elems@.last().shape == Shape::Node,
            final(self).elems@.last().parent == old(self).current(),
            final(self).elems@.last().text@.len() == 0,
            final(self).open@ == old(self).open@.push(old(self).elems.len()),
    {
        let ghost before = self.open@;
        let idx = self.append(kind, Shape::Node, String::new());
        self.open.push(idx);
        proof {
            assert forall|k: int| 0 <= k < self.open.len() implies #[trigger] open_ok(
                self.elems@,
                self.open@,
                k,
            ) by {
                if k < before.len() {
                    assert(open_ok(self.elems@, before, k));
                }
            }
        }
    }

    /// Adds a token with the given text under the current node.
    pub fn token(&mut self, kind: u16, text: &str)
        requires
            old(self).wf(),
        ensures
            final(self).wf(),
            final(self).elems.len() == old(self).elems.len() + 1,
            final(self).elems@.take(old(self).elems.len() as int) == old(self).elems@,
            final(self).elems@.last().kind == kind,
            final(self).elems@.last().shape == Shape::Token,
            final(self).elems@.last().text@ == text@,
            final(self).elems@.last().parent == old(self).current(),
            final(self).open@ == old(self).open@,
    {
        let _ = self.append(kind, Shape::Token, String::from_str(text));
    }

    /// Adds a whitespace token with the given text under the current node.
    pub fn whitespace(&mut self, kind: u16, text: &str)
        requires
            old(self).wf(),
        ensures
            final(self).wf(),
            final(self).elems.len() == old(self).elems.len() + 1,
            final(self).elems@.take(old(self).elems.len() as int) == old(self).elems@,
            final(self).elems@.last().kind == kind,
            final(self).elems@.last().shape == Shape::Whitespace,
            final(self).elems@.last().text@ == text@,
            final(self).elems@.last().parent == old(self).current(),
            final(self).open@ == old(self).open@,
    {
        let _ = self.append(kind, Shape::Whitespace, String::from_str(text));
    }

    /// Closes the current node, unless it is the root, which stays open until
    /// the tree is finished. Says whether a node was closed.
    pub fn finish_node(&mut self) -> (closed: bool)
        requires
            old(self).wf(),
        ensures
            final(self).wf(),
            closed == (old(self).open.len() > 1),
            final(self).elems@ == old(self).elems@,
            closed ==> final(self).open@ == old(self).open@.drop_last(),
            !closed ==> final(self).open@ == old(self).open@,
    {
        if self.open.len() > 1 {
            let ghost before = self.open@;
            proof {
                let top = before[before.len() - 1] as int;
                assert(open_ok(self.elems@, before, before.len() - 1));
                assert(link_ok(self.elems@, top));
                lemma_chain_up(self.elems@, self.elems.len() - 1, top);
            }
            self.open.pop();
            proof {
                assert forall|k: int| 0 <= k < self.open.len() implies #[trigger] open_ok(
                    self.elems@,
                    self.open@,
                    k,
                ) by {
                    assert(open_ok(self.elems@, before, k));
                }
            }
            true
        } else {
            false
        }
    }

    /// Hands the tree over. Nodes that are still open end with the tree.
    pub fn finish(self) -> (tree: SyntaxTree)
        requires
            self.wf(),
        ensures
            tree.wf(),
            tree.elems@ == self.elems@,
    {
        SyntaxTree { elems: self.elems }
    }
}

} // verus!
