//! The renderer: writes the tokens of a tree back out, each behind the gap
//! that the whitespace records resolve for it.

use vstd::prelude::*;
use vstd::string::*;
use crate::dsl::SpaceValue;
use crate::edit_tree::{block_ok, lead_of, token_ok, EditTree};
use crate::syntax::SyntaxElement;
use crate::whitespace::Whitespace;

verus! {

/// The text of the `q`-th token.
pub open spec fn token_text(
    elems: Seq<SyntaxElement>,
    elements: Seq<usize>,
    tokens: Seq<usize>,
    q: int,
) -> Seq<char> {
    elems[elements[tokens[q] as int] as int].text@
}

/// The text of the first `q` tokens, each behind its resolved gap.
pub open spec fn rendered(
    elems: Seq<SyntaxElement>,
    elements: Seq<usize>,
    records: Seq<Whitespace>,
    tokens: Seq<usize>,
    q: int,
) -> Seq<char>
    decreases q,
{
    if q <= 0 {
        Seq::empty()
    } else {
        rendered(elems, elements, records, tokens, q - 1) + lead_of(records, tokens, q - 1).text()
            + token_text(elems, elements, tokens, q - 1)
    }
}

impl EditTree {
    /// The text of the tree as its whitespace records stand: every token
    /// behind its resolved gap, and one line break at the end, whatever
    /// stood behind the last token.
    pub open spec fn text_spec(&self) -> Seq<char> {
        rendered(
            self.source.elems@,
            self.elements@,
            self.whitespace@,
            self.tokens@,
            self.tokens.len() as int,
        ) + seq!['\n']
    }

    /// The text of the tree as its whitespace records stand: walks the
    /// tokens in order and writes each behind its resolved gap. The text is
    /// then closed by one line break: a line-break rule is applied to the
    /// gap behind the root, on a copy of its record, and that gap is
    /// written. No record of the tree changes.
    pub fn apply_edits(&self) -> (res: String)
        requires
            self.wf(),
        ensures
            res@ == self.text_spec(),
    {
        let mut buf = String::new();
        let mut q: usize = 0;
        while q < self.tokens.len()
            invariant
                self.wf(),
                0 <= q <= self.tokens.len(),
                buf@ == rendered(
                    self.source.elems@,
                    self.elements@,
                    self.whitespace@,
                    self.tokens@,
                    q as int,
                ),
            decreases self.tokens.len() - q,
        {
            str_from_blk(self, q, &mut buf);
            q += 1;
        }
        proof {
            assert(block_ok(self.blocks@, self.tokens@, 0));
        }
        let mut last = self.whitespace[0];
        last.fix_spacing_after(SpaceValue::Newline, false);
        assert(last.trail_gap().text() =~= seq!['\n']);
        last.trailing().write_to(&mut buf);
        buf
    }
}

/// Writes the `q`-th token of the tree behind its resolved gap to the end of
/// `buf`. The gap is written once: of the two records that speak of it, the
/// side that a rule has decided counts.
pub fn str_from_blk(tree: &EditTree, q: usize, buf: &mut String)
    requires
        tree.wf(),
        q < tree.tokens.len(),
    ensures
        final(buf)@ == old(buf)@ + lead_of(tree.whitespace@, tree.tokens@, q as int).text()
            + token_text(tree.source.elems@, tree.elements@, tree.tokens@, q as int),
{
    proof {
        assert(token_ok(tree.blocks@, tree.tokens@, q as int));
    }
    let gap = tree.resolved_lead(q);
    gap.write_to(buf);
    buf.append(tree.as_str(tree.tokens[q]));
}

/// The `q`-th token of the tree behind its resolved gap, as a string of its
/// own.
pub fn string_from_block(tree: &EditTree, q: usize) -> (res: String)
    requires
        tree.wf(),
        q < tree.tokens.len(),
    ensures
        res@ == lead_of(tree.whitespace@, tree.tokens@, q as int).text() + token_text(
            tree.source.elems@,
            tree.elements@,
            tree.tokens@,
            q as int,
        ),
{
    let mut res = String::new();
    str_from_blk(tree, q, &mut res);
    assert(res@ =~= lead_of(tree.whitespace@, tree.tokens@, q as int).text() + token_text(
        tree.source.elems@,
        tree.elements@,
        tree.tokens@,
        q as int,
    ));
    res
}

/// The text of a tree as its whitespace records stand.
pub fn str_from_root(tree: &EditTree) -> (res: String)
    requires
        tree.wf(),
    ensures
        res@ == tree.text_spec(),
{
    tree.apply_edits()
}

} // verus!
