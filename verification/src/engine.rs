//! The two passes of a run. The spacing pass decides the gap between every
//! two neighbouring tokens; the indent pass then decides the indent of the
//! tokens that start a line. Both rewrite whitespace records only.

use vstd::prelude::*;
use crate::dsl::{IndentDsl, IndentRule, SpacingDsl, SpacingRule};
use crate::edit_tree::{
    above_kinds,
    anchor,
    block_ok,
    blocks_upto,
    blocks_wf,
    elements_upto,
    lead_of,
    lemma_anchor_range,
    records_upto,
    token_ok,
    tokens_upto,
    Block,
    EditTree,
};
use crate::error::FormatError;
use crate::pattern::{kinds_known, lemma_naming, naming, Pattern, PatternSet};
use crate::render::rendered;
use crate::syntax::SyntaxTree;
use crate::whitespace::{saturate, Whitespace};

verus! {

/// The pattern accepts block `i`.
pub open spec fn block_matches(blocks: Seq<Block>, pattern: Pattern, i: int) -> bool {
    pattern.accepts(blocks[i].kind, above_kinds(blocks, i))
}

/// The rule acts on the gap in front of its token, or on the gap behind it.
pub open spec fn acts_on(rule: SpacingRule, leading: bool) -> bool {
    if leading {
        rule.space.loc.leads()
    } else {
        rule.space.loc.trails()
    }
}

/// The first spacing rule from `from` on that matches block `i` and acts on
/// the given side; the number of rules where there is none.
pub open spec fn first_spacing(
    blocks: Seq<Block>,
    rules: Seq<SpacingRule>,
    i: int,
    leading: bool,
    from: int,
) -> int
    decreases rules.len() - from,
{
    if from >= rules.len() {
        rules.len() as int
    } else if from >= 0 && acts_on(rules[from], leading) && block_matches(
        blocks,
        rules[from].pattern,
        i,
    ) {
        from
    } else {
        first_spacing(blocks, rules, i, leading, from + 1)
    }
}

/// The rule that decides the gap in front of the `q`-th token from that
/// token's side.
pub open spec fn lead_rule(
    blocks: Seq<Block>,
    tokens: Seq<usize>,
    rules: Seq<SpacingRule>,
    q: int,
) -> int {
    first_spacing(blocks, rules, tokens[q] as int, true, 0)
}

/// The rule that decides the gap behind the `q`-th token from that token's
/// side.
pub open spec fn trail_rule(
    blocks: Seq<Block>,
    tokens: Seq<usize>,
    rules: Seq<SpacingRule>,
    q: int,
) -> int {
    first_spacing(blocks, rules, tokens[q] as int, false, 0)
}

/// The record of the `q`-th token once the gap in front of it is decided: a
/// rule of the token's own for that gap is applied to it. The first token
/// has no token before it, and its record stays.
pub open spec fn spaced_lead(
    blocks: Seq<Block>,
    records: Seq<Whitespace>,
    tokens: Seq<usize>,
    rules: Seq<SpacingRule>,
    q: int,
) -> Whitespace {
    let own = records[tokens[q] as int];
    let rule = lead_rule(blocks, tokens, rules, q);
    if q >= 1 && rule < rules.len() {
        own.fixed_before(rules[rule].space.value)
    } else {
        own
    }
}

/// The record of the `q`-th token once both gaps around it are decided. The
/// gap behind it belongs to the next token first: only where that token has
/// no rule for it, a rule of this token is applied, judged by the line
/// break that the gap holds in the record of the next token.
pub open spec fn spaced(
    blocks: Seq<Block>,
    records: Seq<Whitespace>,
    tokens: Seq<usize>,
    rules: Seq<SpacingRule>,
    q: int,
) -> Whitespace {
    let lead = spaced_lead(blocks, records, tokens, rules, q);
    let rule = trail_rule(blocks, tokens, rules, q);
    if q + 1 < tokens.len() && lead_rule(blocks, tokens, rules, q + 1) >= rules.len() && rule
        < rules.len() {
        lead.fixed_after(rules[rule].space.value, records[tokens[q + 1] as int].new_line.0)
    } else {
        lead
    }
}

/// The records after the spacing pass: every token has both gaps decided,
/// and the records of the nodes stay.
pub open spec fn spacing_result(
    blocks: Seq<Block>,
    records: Seq<Whitespace>,
    tokens: Seq<usize>,
    rules: Seq<SpacingRule>,
) -> Seq<Whitespace> {
    Seq::new(
        records.len(),
        |k: int|
            if blocks[k].is_token {
                spaced(blocks, records, tokens, rules, blocks[k].ordinal as int)
            } else {
                records[k]
            },
    )
}

/// The records after the gap between the tokens `q - 1` and `q` was
/// decided: by the rule of the right token for the gap in front of it, or
/// else by the rule of the left token for the gap behind it.
pub open spec fn edge_fixed(
    blocks: Seq<Block>,
    records: Seq<Whitespace>,
    tokens: Seq<usize>,
    rules: Seq<SpacingRule>,
    q: int,
) -> Seq<Whitespace> {
    let left = tokens[q - 1] as int;
    let right = tokens[q] as int;
    let before = lead_rule(blocks, tokens, rules, q);
    let after = trail_rule(blocks, tokens, rules, q - 1);
    if before < rules.len() {
        records.update(right, records[right].fixed_before(rules[before].space.value))
    } else if after < rules.len() {
        records.update(
            left,
            records[left].fixed_after(rules[after].space.value, records[right].new_line.0),
        )
    } else {
        records
    }
}

/// Where the spacing pass stands for block `k` when the gaps in front of
/// the tokens before the `q`-th are decided.
pub open spec fn staged(
    blocks: Seq<Block>,
    records: Seq<Whitespace>,
    tokens: Seq<usize>,
    rules: Seq<SpacingRule>,
    current: Seq<Whitespace>,
    q: int,
    k: int,
) -> bool {
    let t = blocks[k].ordinal as int;
    current[k] == (if !blocks[k].is_token {
        records[k]
    } else if t + 1 < q {
        spaced(blocks, records, tokens, rules, t)
    } else if t < q {
        spaced_lead(blocks, records, tokens, rules, t)
    } else {
        records[k]
    })
}

/// The first indent rule from `from` on that matches block `i`; the number
/// of rules where there is none.
pub open spec fn first_indent(blocks: Seq<Block>, rules: Seq<IndentRule>, i: int, from: int) -> int
    decreases rules.len() - from,
{
    if from >= rules.len() {
        rules.len() as int
    } else if from >= 0 && block_matches(blocks, rules[from].pattern, i) {
        from
    } else {
        first_indent(blocks, rules, i, from + 1)
    }
}

/// More than one indent rule matches block `i`.
pub open spec fn ambiguous(blocks: Seq<Block>, rules: Seq<IndentRule>, i: int) -> bool {
    let first = first_indent(blocks, rules, i, 0);
    first < rules.len() && first_indent(blocks, rules, i, first + 1) < rules.len()
}

/// More than one indent rule matches some block of the tree.
pub open spec fn any_ambiguous(blocks: Seq<Block>, rules: Seq<IndentRule>) -> bool {
    exists|i: int| 0 <= i < blocks.len() && #[trigger] ambiguous(blocks, rules, i)
}

/// One of the patterns accepts block `i`.
pub open spec fn matches_any(blocks: Seq<Block>, anchors: Seq<Pattern>, i: int) -> bool {
    exists|j: int| 0 <= j < anchors.len() && #[trigger] block_matches(blocks, anchors[j], i)
}

/// The block that stands for block `i` in the text: the first token that is
/// reached from it by going down into first children, and the block itself
/// where no token is reached.
pub open spec fn target(blocks: Seq<Block>, i: int) -> int {
    if anchor(blocks, i) >= 0 {
        anchor(blocks, i)
    } else {
        i
    }
}

/// The indent of block `i` as it stands resolved: the indent that the gap in
/// front of its first token gives; where the block reaches no token, the
/// indent that its own record gives.
pub open spec fn indent_at(
    blocks: Seq<Block>,
    records: Seq<Whitespace>,
    tokens: Seq<usize>,
    i: int,
) -> u32 {
    let t = anchor(blocks, i);
    if t >= 0 {
        lead_of(records, tokens, blocks[t].ordinal as int).indent()
    } else {
        records[i].lead_gap().indent()
    }
}

/// What node `p` adds to the indent of a block below it: its own resolved
/// indent where it is an anchor, and nothing otherwise.
pub open spec fn contribution(
    blocks: Seq<Block>,
    records: Seq<Whitespace>,
    tokens: Seq<usize>,
    anchors: Seq<Pattern>,
    p: int,
) -> nat {
    if matches_any(blocks, anchors, p) {
        indent_at(blocks, records, tokens, p) as nat
    } else {
        0
    }
}

/// What the nodes above block `i` add to its indent: the resolved indent of
/// every one of them that is an anchor.
pub open spec fn anchor_sum(
    blocks: Seq<Block>,
    records: Seq<Whitespace>,
    tokens: Seq<usize>,
    anchors: Seq<Pattern>,
    i: int,
) -> nat
    decreases i,
{
    if i <= 0 || i >= blocks.len() || blocks[i].parent >= i {
        0
    } else {
        contribution(blocks, records, tokens, anchors, blocks[i].parent as int) + anchor_sum(
            blocks,
            records,
            tokens,
            anchors,
            blocks[i].parent as int,
        )
    }
}

/// The indent that a rule gives block `i`: one unit and the resolved indent
/// of every anchor above the block, held to what a `u32` can take.
pub open spec fn indent_width(
    blocks: Seq<Block>,
    records: Seq<Whitespace>,
    tokens: Seq<usize>,
    rule: IndentRule,
    unit: u32,
    i: int,
) -> u32 {
    saturate(unit as nat + anchor_sum(blocks, records, tokens, rule.anchors@, i))
}

/// The records after a rule was applied to block `i`. Where the record of
/// the block says that its leading whitespace starts with a line break, the
/// first token of the block gets the indent of the rule as its blanks in
/// front, unless the block has that indent already. Nothing else changes,
/// and a block that does not start a line is left alone.
pub open spec fn indented(
    blocks: Seq<Block>,
    records: Seq<Whitespace>,
    tokens: Seq<usize>,
    rule: IndentRule,
    unit: u32,
    i: int,
) -> Seq<Whitespace> {
    let width = indent_width(blocks, records, tokens, rule, unit, i);
    let t = target(blocks, i);
    if records[i].starts_with_lf && indent_at(blocks, records, tokens, i) != width {
        records.update(t, records[t].with_indent(width))
    } else {
        records
    }
}

/// The records after block `i` had its turn in the indent pass: the first
/// rule that matches it is applied.
pub open spec fn indent_step(
    blocks: Seq<Block>,
    records: Seq<Whitespace>,
    tokens: Seq<usize>,
    rules: Seq<IndentRule>,
    unit: u32,
    i: int,
) -> Seq<Whitespace> {
    let first = first_indent(blocks, rules, i, 0);
    if first < rules.len() {
        indented(blocks, records, tokens, rules[first], unit, i)
    } else {
        records
    }
}

/// The records after the blocks `0..n` had their turn in the indent pass,
/// in this order.
pub open spec fn indent_upto(
    blocks: Seq<Block>,
    records: Seq<Whitespace>,
    tokens: Seq<usize>,
    rules: Seq<IndentRule>,
    unit: u32,
    n: int,
) -> Seq<Whitespace>
    decreases n,
{
    if n <= 0 {
        records
    } else {
        indent_step(
            blocks,
            indent_upto(blocks, records, tokens, rules, unit, n - 1),
            tokens,
            rules,
            unit,
            n - 1,
        )
    }
}

/// The records after both passes: the spacing pass, then the indent pass.
pub open spec fn pass_result(
    blocks: Seq<Block>,
    records: Seq<Whitespace>,
    tokens: Seq<usize>,
    spacing: Seq<SpacingRule>,
    indent: Seq<IndentRule>,
    unit: u32,
) -> Seq<Whitespace> {
    indent_upto(
        blocks,
        spacing_result(blocks, records, tokens, spacing),
        tokens,
        indent,
        unit,
        blocks.len() as int,
    )
}

/// The text that the records of a run give: every token behind its
/// resolved gap, and one line break at the end.
pub open spec fn run_text(tree: &SyntaxTree, records: Seq<Whitespace>) -> Seq<char> {
    let n = tree.elems.len() as int;
    let tokens = tokens_upto(tree.elems@, n);
    rendered(tree.elems@, elements_upto(tree.elems@, n), records, tokens, tokens.len() as int)
        + seq!['\n']
}

/// What formatting a tree gives. A tree without tokens has no text; a tree
/// with a block that more than one indent rule matches is refused; every
/// other tree gives the text of its tokens behind the gaps that the two
/// passes resolve, with one line break at the end.
pub open spec fn format_spec(tree: &SyntaxTree, spacing: &SpacingDsl, indent: &IndentDsl) -> Result<
    Seq<char>,
    FormatError,
> {
    let n = tree.elems.len() as int;
    let blocks = blocks_upto(tree.elems@, n);
    let tokens = tokens_upto(tree.elems@, n);
    if tokens.len() == 0 {
        Err(FormatError::EmptyInput)
    } else if any_ambiguous(blocks, indent.rules@) {
        Err(FormatError::AmbiguousIndentRule)
    } else {
        Ok(
            run_text(
                tree,
                pass_result(
                    blocks,
                    records_upto(tree, n),
                    tokens,
                    spacing.rules@,
                    indent.rules@,
                    indent.unit,
                ),
            ),
        )
    }
}

/// The index holds the kind lists of the rules, each under the number of
/// its rule.
pub open spec fn indexes(index: &PatternSet, rules: Seq<SpacingRule>) -> bool {
    &&& index.lists@.len() == rules.len()
    &&& forall|j: int| 0 <= j < rules.len() ==> #[trigger] index.lists@[j] == rules[j].pattern.kinds@
}

/// Rules that do not name the kind of block `i` do not count in the search
/// for a rule that matches it.
pub proof fn lemma_skip_spacing(
    blocks: Seq<Block>,
    rules: Seq<SpacingRule>,
    i: int,
    leading: bool,
    from: int,
    to: int,
)
    requires
        0 <= from <= to <= rules.len(),
        forall|j: int| from <= j < to ==> !(#[trigger] rules[j]).pattern.kinds@.contains(blocks[i].kind),
    ensures
        first_spacing(blocks, rules, i, leading, from) == first_spacing(blocks, rules, i, leading, to),
    decreases to - from,
{
    if from < to {
        assert(!rules[from].pattern.kinds@.contains(blocks[i].kind));
        lemma_skip_spacing(blocks, rules, i, leading, from + 1, to);
    }
}

/// Builds the index of the spacing rules by the kinds that their patterns
/// name.
pub fn index_spacing(space_rules: &SpacingDsl) -> (res: PatternSet)
    requires
        space_rules.wf(),
    ensures
        res.wf(),
        res.by_kind.len() == space_rules.kind_count,
        indexes(&res, space_rules.rules@),
{
    let mut index = PatternSet::new(space_rules.kind_count);
    let mut j: usize = 0;
    while j < space_rules.rules.len()
        invariant
            0 <= j <= space_rules.rules.len(),
            space_rules.wf(),
            index.wf(),
            index.by_kind.len() == space_rules.kind_count,
            index.count == j,
            index.lists@.len() == j,
            forall|c: int|
                0 <= c < j ==> #[trigger] index.lists@[c] == space_rules.rules[c].pattern.kinds@,
        decreases space_rules.rules.len() - j,
    {
        proof {
            assert(space_rules.rules[j as int].pattern.known(space_rules.kind_count));
        }
        index.insert(&space_rules.rules[j].pattern.kinds);
        j += 1;
    }
    index
}

impl EditTree {
    /// Whether the pattern accepts block `i`.
    pub fn matches(&self, pattern: &Pattern, i: usize) -> (res: bool)
        requires
            self.wf(),
            i < self.blocks.len(),
        ensures
            res == block_matches(self.blocks@, *pattern, i as int),
    {
        let above = self.kinds_above(i);
        pattern.matches_kinds(self.blocks[i].kind, &above)
    }

    /// The first spacing rule that matches block `i` and acts on the given
    /// side; the number of rules where there is none. Only the rules that
    /// the index holds for the kind of the block are looked at.
    pub fn find_spacing(
        &self,
        rules: &Vec<SpacingRule>,
        index: &PatternSet,
        i: usize,
        leading: bool,
    ) -> (res: usize)
        requires
            self.wf(),
            i < self.blocks.len(),
            index.wf(),
            indexes(index, rules@),
        ensures
            res == first_spacing(self.blocks@, rules@, i as int, leading, 0),
    {
        let above = self.kinds_above(i);
        let kind = self.blocks[i].kind;
        let found = index.matching(kind);
        let ghost lists = index.lists@;
        let ghost low: int = 0;
        proof {
            if kind < index.by_kind.len() {
                lemma_naming(lists, kind, rules.len() as int);
            } else {
                assert forall|j: int| 0 <= j < rules.len() implies !lists[j].contains(kind) by {
                    assert(kinds_known(lists[j], index.by_kind.len() as u16));
                }
            }
        }
        let mut p: usize = 0;
        while p < found.len()
            invariant
                0 <= p <= found.len(),
                i < self.blocks.len(),
                kind == self.blocks[i as int].kind,
                above@ == above_kinds(self.blocks@, i as int),
                index.wf(),
                indexes(index, rules@),
                lists == index.lists@,
                found@ == index.found(kind),
                found.len() > 0 ==> found@ == naming(lists, kind, rules.len() as int),
                0 <= low <= rules.len(),
                p > 0 ==> low == found[p - 1] + 1,
                p == 0 ==> low == 0,
                forall|w: int|
                    0 <= w < found.len() ==> (#[trigger] found[w]) < rules.len() && lists[found[w] as int].contains(
                        kind,
                    ),
                forall|a: int, b: int| 0 <= a < b < found.len() ==> found[a] < found[b],
                forall|j: int|
                    0 <= j < rules.len() && lists[j].contains(kind) ==> found@.contains(j as usize),
                first_spacing(self.blocks@, rules@, i as int, leading, low) == first_spacing(
                    self.blocks@,
                    rules@,
                    i as int,
                    leading,
                    0,
                ),
            decreases found.len() - p,
        {
            let k = found[p];
            proof {
                assert forall|j: int| low <= j < k implies !rules@[j].pattern.kinds@.contains(
                    kind,
                ) by {
                    if lists[j].contains(kind) {
                        let w = choose|w: int| 0 <= w < found@.len() && found@[w] == j as usize;
                        if w < p {
                            if w < p - 1 {
                                assert(found[w] < found[p - 1]);
                            }
                        } else if w > p {
                            assert(found[p as int] < found[w]);
                        }
                    }
                }
                lemma_skip_spacing(self.blocks@, rules@, i as int, leading, low, k as int);
            }
            let acts = if leading {
                rules[k].space.loc.is_leading()
            } else {
                rules[k].space.loc.is_trailing()
            };
            if acts && rules[k].pattern.matches_kinds(kind, &above) {
                return k;
            }
            proof {
                low = k + 1;
            }
            p += 1;
        }
        proof {
            assert forall|j: int| low <= j < rules.len() implies !rules@[j].pattern.kinds@.contains(
                kind,
            ) by {
                if lists[j].contains(kind) {
                    let w = choose|w: int| 0 <= w < found@.len() && found@[w] == j as usize;
                    if w < p - 1 {
                        assert(found[w] < found[p - 1]);
                    }
                }
            }
            lemma_skip_spacing(self.blocks@, rules@, i as int, leading, low, rules.len() as int);
        }
        rules.len()
    }

    /// The first indent rule from `from` on that matches block `i`; the
    /// number of rules where there is none.
    pub fn find_indent(&self, rules: &Vec<IndentRule>, i: usize, from: usize) -> (res: usize)
        requires
            self.wf(),
            i < self.blocks.len(),
        ensures
            res == first_indent(self.blocks@, rules@, i as int, from as int),
    {
        let above = self.kinds_above(i);
        let kind = self.blocks[i].kind;
        let mut k: usize = from;
        while k < rules.len()
            invariant
                from <= k,
                i < self.blocks.len(),
                kind == self.blocks[i as int].kind,
                above@ == above_kinds(self.blocks@, i as int),
                first_indent(self.blocks@, rules@, i as int, k as int) == first_indent(
                    self.blocks@,
                    rules@,
                    i as int,
                    from as int,
                ),
            decreases rules.len() - k,
        {
            if rules[k].pattern.matches_kinds(kind, &above) {
                return k;
            }
            k += 1;
        }
        rules.len()
    }

    /// Whether one of the patterns accepts block `i`.
    pub fn matches_one_of(&self, anchors: &Vec<Pattern>, i: usize) -> (res: bool)
        requires
            self.wf(),
            i < self.blocks.len(),
        ensures
            res == matches_any(self.blocks@, anchors@, i as int),
    {
        let above = self.kinds_above(i);
        let kind = self.blocks[i].kind;
        let mut j: usize = 0;
        while j < anchors.len()
            invariant
                0 <= j <= anchors.len(),
                i < self.blocks.len(),
                kind == self.blocks[i as int].kind,
                above@ == above_kinds(self.blocks@, i as int),
                forall|k: int| 0 <= k < j ==> !#[trigger] block_matches(self.blocks@, anchors@[k], i as int),
            decreases anchors.len() - j,
        {
            if anchors[j].matches_kinds(kind, &above) {
                assert(block_matches(self.blocks@, anchors@[j as int], i as int));
                return true;
            }
            j += 1;
        }
        false
    }
}

/// A run in progress: the tree whose whitespace records the passes rewrite.
#[derive(Clone, Debug)]
pub struct FmtDiff {
    pub edit_tree: EditTree,
}

/// `a + b`, or the largest `u32` where the sum is beyond it.
pub fn saturating_sum(a: u32, b: u32) -> (res: u32)
    ensures
        res == saturate(a as nat + b as nat),
{
    if a > u32::MAX - b {
        u32::MAX
    } else {
        a + b
    }
}

impl FmtDiff {
    /// Starts a run on a tree.
    pub fn new(edit_tree: EditTree) -> (res: Self)
        ensures
            res.edit_tree == edit_tree,
    {
        Self { edit_tree }
    }

    /// Ends the run and hands the tree back.
    pub fn into_tree(self) -> (res: EditTree)
        ensures
            res == self.edit_tree,
    {
        self.edit_tree
    }

    /// Decides the gap between the tokens `q - 1` and `q`. A rule of the
    /// right token for the gap in front of it comes first; only where there
    /// is none, a rule of the left token for the gap behind it is applied.
    /// The record of the token whose rule it is is rewritten, and no other.
    pub fn compute_spacing(&mut self, space_rules: &SpacingDsl, index: &PatternSet, q: usize)
        requires
            old(self).edit_tree.wf(),
            1 <= q < old(self).edit_tree.tokens.len(),
            index.wf(),
            indexes(index, space_rules.rules@),
        ensures
            final(self).edit_tree.wf(),
            final(self).edit_tree.source == old(self).edit_tree.source,
            final(self).edit_tree.blocks == old(self).edit_tree.blocks,
            final(self).edit_tree.elements == old(self).edit_tree.elements,
            final(self).edit_tree.tokens == old(self).edit_tree.tokens,
            final(self).edit_tree.whitespace@ == edge_fixed(
                old(self).edit_tree.blocks@,
                old(self).edit_tree.whitespace@,
                old(self).edit_tree.tokens@,
                space_rules.rules@,
                q as int,
            ),
    {
        proof {
            assert(token_ok(self.edit_tree.blocks@, self.edit_tree.tokens@, q as int));
            assert(token_ok(self.edit_tree.blocks@, self.edit_tree.tokens@, q - 1));
        }
        let left = self.edit_tree.tokens[q - 1];
        let right = self.edit_tree.tokens[q];
        let before = self.edit_tree.find_spacing(&space_rules.rules, index, right, true);
        if before < space_rules.rules.len() {
            let mut record = self.edit_tree.whitespace[right];
            record.fix_spacing_before(space_rules.rules[before].space.value);
            self.edit_tree.whitespace.set(right, record);
        } else {
            let after = self.edit_tree.find_spacing(&space_rules.rules, index, left, false);
            if after < space_rules.rules.len() {
                let has_newline = self.edit_tree.whitespace[right].new_line.0;
                let mut record = self.edit_tree.whitespace[left];
                record.fix_spacing_after(space_rules.rules[after].space.value, has_newline);
                self.edit_tree.whitespace.set(left, record);
            }
        }
    }

    /// The spacing pass: decides the gap between every two neighbouring
    /// tokens, in the order of the text.
    pub fn spacing_diff(self, space_rules: &SpacingDsl) -> (res: FmtDiff)
        requires
            self.edit_tree.wf(),
            space_rules.wf(),
        ensures
            res.edit_tree.wf(),
            res.edit_tree.source == self.edit_tree.source,
            res.edit_tree.blocks == self.edit_tree.blocks,
            res.edit_tree.elements == self.edit_tree.elements,
            res.edit_tree.tokens == self.edit_tree.tokens,
            res.edit_tree.whitespace@ == spacing_result(
                self.edit_tree.blocks@,
                self.edit_tree.whitespace@,
                self.edit_tree.tokens@,
                space_rules.rules@,
            ),
    {
        let ghost blocks = self.edit_tree.blocks@;
        let ghost tokens = self.edit_tree.tokens@;
        let ghost records = self.edit_tree.whitespace@;
        let ghost rules = space_rules.rules@;
        let index = index_spacing(space_rules);
        let mut diff = self;
        let count = diff.edit_tree.tokens.len();
        let mut q: usize = 1;
        proof {
            assert forall|k: int| 0 <= k < records.len() implies #[trigger] staged(
                blocks,
                records,
                tokens,
                rules,
                records,
                1,
                k,
            ) by {
                assert(block_ok(blocks, tokens, k));
            }
        }
        while q < count
            invariant
                1 <= q,
                q <= count || count == 0,
                count == tokens.len(),
                diff.edit_tree.wf(),
                diff.edit_tree.source == self.edit_tree.source,
                diff.edit_tree.blocks == self.edit_tree.blocks,
                diff.edit_tree.elements == self.edit_tree.elements,
                diff.edit_tree.tokens == self.edit_tree.tokens,
                diff.edit_tree.blocks@ == blocks,
                diff.edit_tree.tokens@ == tokens,
                space_rules.rules@ == rules,
                index.wf(),
                indexes(&index, rules),
                diff.edit_tree.whitespace.len() == records.len(),
                forall|k: int|
                    0 <= k < records.len() ==> #[trigger] staged(
                        blocks,
                        records,
                        tokens,
                        rules,
                        diff.edit_tree.whitespace@,
                        q as int,
                        k,
                    ),
            decreases count - q,
        {
            let ghost current = diff.edit_tree.whitespace@;
            diff.compute_spacing(space_rules, &index, q);
            proof {
                assert(token_ok(blocks, tokens, q as int));
                assert(token_ok(blocks, tokens, q - 1));
                lemma_edge_stages(blocks, records, tokens, rules, current, q as int);
            }
            q += 1;
        }
        proof {
            let current = diff.edit_tree.whitespace@;
            assert forall|k: int| 0 <= k < records.len() implies current[k] == spacing_result(
                blocks,
                records,
                tokens,
                rules,
            )[k] by {
                assert(staged(blocks, records, tokens, rules, current, q as int, k));
                assert(block_ok(blocks, tokens, k));
            }
            assert(current =~= spacing_result(blocks, records, tokens, rules));
        }
        diff
    }
}

impl FmtDiff {
    /// The indent that a rule gives block `i`: one unit and the resolved
    /// indent of every anchor above it.
    pub fn indent_for(&self, rule: &IndentRule, unit: u32, i: usize) -> (res: u32)
        requires
            self.edit_tree.wf(),
            i < self.edit_tree.blocks.len(),
        ensures
            res == indent_width(
                self.edit_tree.blocks@,
                self.edit_tree.whitespace@,
                self.edit_tree.tokens@,
                *rule,
                unit,
                i as int,
            ),
    {
        let ghost blocks = self.edit_tree.blocks@;
        let ghost records = self.edit_tree.whitespace@;
        let ghost tokens = self.edit_tree.tokens@;
        let mut width: u32 = unit;
        let ghost mut below: nat = 0;
        let mut j: usize = i;
        while j > 0
            invariant
                self.edit_tree.wf(),
                blocks == self.edit_tree.blocks@,
                records == self.edit_tree.whitespace@,
                tokens == self.edit_tree.tokens@,
                0 <= j <= i < blocks.len(),
                width == saturate(unit as nat + below),
                below + anchor_sum(blocks, records, tokens, rule.anchors@, j as int) == anchor_sum(
                    blocks,
                    records,
                    tokens,
                    rule.anchors@,
                    i as int,
                ),
            decreases j,
        {
            proof {
                assert(block_ok(blocks, tokens, j as int));
            }
            let up = self.edit_tree.blocks[j].parent;
            let mut add: u32 = 0;
            if self.edit_tree.matches_one_of(&rule.anchors, up) {
                add = self.edit_tree.get_indent(up);
            }
            proof {
                assert(add as nat == contribution(blocks, records, tokens, rule.anchors@, up as int));
                below = below + add as nat;
            }
            width = saturating_sum(width, add);
            j = up;
        }
        width
    }

    /// Applies an indent rule to block `i`. Where the record of the block
    /// says that its leading whitespace starts with a line break, the first
    /// token of the block gets the indent of the rule as its blanks in
    /// front; the write is left out where the block has that indent already.
    /// No other record changes, and of the record that is written nothing
    /// changes but the blanks in front.
    pub fn check_indent(&mut self, rule: &IndentRule, unit: u32, i: usize)
        requires
            old(self).edit_tree.wf(),
            i < old(self).edit_tree.blocks.len(),
        ensures
            final(self).edit_tree.wf(),
            final(self).edit_tree.source == old(self).edit_tree.source,
            final(self).edit_tree.blocks == old(self).edit_tree.blocks,
            final(self).edit_tree.elements == old(self).edit_tree.elements,
            final(self).edit_tree.tokens == old(self).edit_tree.tokens,
            final(self).edit_tree.whitespace@ == indented(
                old(self).edit_tree.blocks@,
                old(self).edit_tree.whitespace@,
                old(self).edit_tree.tokens@,
                *rule,
                unit,
                i as int,
            ),
    {
        proof {
            lemma_anchor_range(self.edit_tree.blocks@, i as int);
        }
        if self.edit_tree.whitespace[i].starts_with_lf {
            let width = self.indent_for(rule, unit, i);
            if self.edit_tree.get_indent(i) != width {
                let t = match self.edit_tree.anchor_token(i) {
                    Some(t) => t,
                    None => i,
                };
                self.edit_tree.set_indent(t, width);
            }
        }
    }

    /// Whether more than one indent rule matches some block of the tree.
    pub fn has_ambiguity(&self, indent_rules: &IndentDsl) -> (res: bool)
        requires
            self.edit_tree.wf(),
        ensures
            res == any_ambiguous(self.edit_tree.blocks@, indent_rules.rules@),
    {
        let n = self.edit_tree.blocks.len();
        let mut i: usize = 0;
        while i < n
            invariant
                self.edit_tree.wf(),
                n == self.edit_tree.blocks.len(),
                0 <= i <= n,
                forall|k: int|
                    0 <= k < i ==> !#[trigger] ambiguous(
                        self.edit_tree.blocks@,
                        indent_rules.rules@,
                        k,
                    ),
            decreases n - i,
        {
            let first = self.edit_tree.find_indent(&indent_rules.rules, i, 0);
            if first < indent_rules.rules.len() {
                let second = self.edit_tree.find_indent(&indent_rules.rules, i, first + 1);
                if second < indent_rules.rules.len() {
                    assert(ambiguous(self.edit_tree.blocks@, indent_rules.rules@, i as int));
                    return true;
                }
            }
            i += 1;
        }
        false
    }

    /// The indent pass: gives every block its turn, in pre-order, and
    /// applies the one indent rule that matches it. Where more than one rule
    /// matches some block, wherever it stands, the pass is refused as a
    /// whole.
    pub fn indent_diff(self, indent_rules: &IndentDsl) -> (res: Result<FmtDiff, FormatError>)
        requires
            self.edit_tree.wf(),
        ensures
            res.is_err() <==> any_ambiguous(self.edit_tree.blocks@, indent_rules.rules@),
            res.is_err() ==> res.unwrap_err() == FormatError::AmbiguousIndentRule,
            res.is_ok() ==> {
                let tree = res.unwrap().edit_tree;
                &&& tree.wf()
                &&& tree.source == self.edit_tree.source
                &&& tree.blocks == self.edit_tree.blocks
                &&& tree.elements == self.edit_tree.elements
                &&& tree.tokens == self.edit_tree.tokens
                &&& tree.whitespace@ == indent_upto(
                    self.edit_tree.blocks@,
                    self.edit_tree.whitespace@,
                    self.edit_tree.tokens@,
                    indent_rules.rules@,
                    indent_rules.unit,
                    self.edit_tree.blocks.len() as int,
                )
            },
    {
        if self.has_ambiguity(indent_rules) {
            return Err(FormatError::AmbiguousIndentRule);
        }
        let ghost blocks = self.edit_tree.blocks@;
        let ghost tokens = self.edit_tree.tokens@;
        let ghost records = self.edit_tree.whitespace@;
        let mut diff = self;
        let n = diff.edit_tree.blocks.len();
        let mut i: usize = 0;
        while i < n
            invariant
                0 <= i <= n,
                n == blocks.len(),
                diff.edit_tree.wf(),
                diff.edit_tree.source == self.edit_tree.source,
                diff.edit_tree.blocks == self.edit_tree.blocks,
                diff.edit_tree.elements == self.edit_tree.elements,
                diff.edit_tree.tokens == self.edit_tree.tokens,
                diff.edit_tree.blocks@ == blocks,
                diff.edit_tree.tokens@ == tokens,
                diff.edit_tree.whitespace@ == indent_upto(
                    blocks,
                    records,
                    tokens,
                    indent_rules.rules@,
                    indent_rules.unit,
                    i as int,
                ),
            decreases n - i,
        {
            let first = diff.edit_tree.find_indent(&indent_rules.rules, i, 0);
            if first < indent_rules.rules.len() {
                diff.check_indent(&indent_rules.rules[first], indent_rules.unit, i);
            }
            i += 1;
        }
        Ok(diff)
    }
}

/// Runs both passes on a syntax tree and hands back the tree of blocks with
/// every gap resolved: the two passes and nothing else, so that with two
/// empty tables every record is as the tree was built. A tree without
/// tokens is refused, and so is a tree with a block that more than one
/// indent rule matches.
pub fn format_pass(space_dsl: &SpacingDsl, indent_dsl: &IndentDsl, root: SyntaxTree) -> (res: Result<
    EditTree,
    FormatError,
>)
    requires
        root.wf(),
        space_dsl.wf(),
    ensures
        res.is_ok() <==> format_spec(&root, space_dsl, indent_dsl).is_ok(),
        res.is_err() ==> format_spec(&root, space_dsl, indent_dsl) == Err::<Seq<char>, FormatError>(
            res.unwrap_err(),
        ),
        res.is_ok() ==> {
            let tree = res.unwrap();
            let fresh = blocks_upto(root.elems@, root.elems.len() as int);
            &&& tree.wf()
            &&& tree.source == root
            &&& tree.blocks@ == fresh
            &&& tree.elements@ == elements_upto(root.elems@, root.elems.len() as int)
            &&& tree.tokens@ == tokens_upto(root.elems@, root.elems.len() as int)
            &&& tree.whitespace@ == pass_result(
                fresh,
                records_upto(&root, root.elems.len() as int),
                tree.tokens@,
                space_dsl.rules@,
                indent_dsl.rules@,
                indent_dsl.unit,
            )
        },
{
    let fmt = EditTree::new(root);
    if fmt.tokens.len() == 0 {
        return Err(FormatError::EmptyInput);
    }
    match FmtDiff::new(fmt).spacing_diff(space_dsl).indent_diff(indent_dsl) {
        Ok(diff) => Ok(diff.into_tree()),
        Err(e) => Err(e),
    }
}

/// Formats a syntax tree by the two rule tables and gives the new text.
pub fn format(tree: SyntaxTree, space_dsl: &SpacingDsl, indent_dsl: &IndentDsl) -> (res: Result<
    String,
    FormatError,
>)
    requires
        tree.wf(),
        space_dsl.wf(),
    ensures
        match res {
            Ok(text) => format_spec(&tree, space_dsl, indent_dsl) == Ok::<Seq<char>, FormatError>(
                text@,
            ),
            Err(e) => format_spec(&tree, space_dsl, indent_dsl) == Err::<Seq<char>, FormatError>(e),
        },
{
    match format_pass(space_dsl, indent_dsl, tree) {
        Ok(edited) => Ok(edited.apply_edits()),
        Err(e) => Err(e),
    }
}

/// Deciding the gap in front of the `q`-th token takes the spacing pass one
/// token further.
pub proof fn lemma_edge_stages(
    blocks: Seq<Block>,
    records: Seq<Whitespace>,
    tokens: Seq<usize>,
    rules: Seq<SpacingRule>,
    current: Seq<Whitespace>,
    q: int,
)
    requires
        blocks_wf(blocks, tokens),
        records.len() == blocks.len(),
        current.len() == blocks.len(),
        1 <= q < tokens.len(),
        forall|k: int|
            0 <= k < blocks.len() ==> #[trigger] staged(blocks, records, tokens, rules, current, q, k),
    ensures
        forall|k: int|
            0 <= k < blocks.len() ==> #[trigger] staged(
                blocks,
                records,
                tokens,
                rules,
                edge_fixed(blocks, current, tokens, rules, q),
                q + 1,
                k,
            ),
{
    let next = edge_fixed(blocks, current, tokens, rules, q);
    let left = tokens[q - 1] as int;
    let right = tokens[q] as int;
    assert(token_ok(blocks, tokens, q));
    assert(token_ok(blocks, tokens, q - 1));
    assert(staged(blocks, records, tokens, rules, current, q, left));
    assert(staged(blocks, records, tokens, rules, current, q, right));
    assert forall|k: int| 0 <= k < blocks.len() implies #[trigger] staged(
        blocks,
        records,
        tokens,
        rules,
        next,
        q + 1,
        k,
    ) by {
        assert(staged(blocks, records, tokens, rules, current, q, k));
        assert(block_ok(blocks, tokens, k));
    }
}

} // verus!
