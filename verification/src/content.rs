//! Formatting looks at content only: two trees that hold the same elements,
//! and two rule tables that hold the same rules, are formatted alike.

use vstd::prelude::*;
use crate::dsl::{IndentDsl, IndentRule, SpacingDsl, SpacingRule};
use crate::edit_tree::{
    blocks_upto,
    elements_upto,
    kept_before,
    next_token,
    prev_token,
    records_upto,
    token_ok,
    tokens_before,
    tokens_upto,
    trivia_at,
    whitespace_of,
    Block,
};
use crate::engine::{
    ambiguous,
    anchor_sum,
    any_ambiguous,
    block_matches,
    contribution,
    first_indent,
    first_spacing,
    format_spec,
    indent_upto,
    indented,
    matches_any,
    pass_result,
    spaced,
    spacing_result,
};
use crate::laws::{lemma_built_upto, lemma_fresh_tree};
use crate::pattern::Pattern;
use crate::render::rendered;
use crate::syntax::{elem_end, link_ok, SyntaxElement, SyntaxTree};
use crate::whitespace::Whitespace;

verus! {

/// Two elements hold the same.
pub open spec fn same_element(a: SyntaxElement, b: SyntaxElement) -> bool {
    &&& a.kind == b.kind
    &&& a.shape == b.shape
    &&& a.text@ == b.text@
    &&& a.parent == b.parent
}

/// Two lists of elements hold the same, element by element.
pub open spec fn same_elems(a: Seq<SyntaxElement>, b: Seq<SyntaxElement>) -> bool {
    &&& a.len() == b.len()
    &&& forall|i: int| 0 <= i < a.len() ==> #[trigger] same_element(a[i], b[i])
}

/// Two trees hold the same.
pub open spec fn same_tree(a: &SyntaxTree, b: &SyntaxTree) -> bool {
    same_elems(a.elems@, b.elems@)
}

/// Two patterns name the same kinds.
pub open spec fn same_pattern(a: Pattern, b: Pattern) -> bool {
    a.kinds@ == b.kinds@ && a.within@ == b.within@
}

/// Two spacing rules say the same.
pub open spec fn same_spacing_rule(a: SpacingRule, b: SpacingRule) -> bool {
    same_pattern(a.pattern, b.pattern) && a.space == b.space
}

/// Two lists of spacing rules say the same, rule by rule.
pub open spec fn same_spacing(a: Seq<SpacingRule>, b: Seq<SpacingRule>) -> bool {
    &&& a.len() == b.len()
    &&& forall|j: int| 0 <= j < a.len() ==> #[trigger] same_spacing_rule(a[j], b[j])
}

/// Two lists of patterns name the same kinds, pattern by pattern.
pub open spec fn same_patterns(a: Seq<Pattern>, b: Seq<Pattern>) -> bool {
    &&& a.len() == b.len()
    &&& forall|j: int| 0 <= j < a.len() ==> #[trigger] same_pattern(a[j], b[j])
}

/// Two indent rules say the same.
pub open spec fn same_indent_rule(a: IndentRule, b: IndentRule) -> bool {
    same_pattern(a.pattern, b.pattern) && same_patterns(a.anchors@, b.anchors@)
}

/// Two lists of indent rules say the same, rule by rule.
pub open spec fn same_indent(a: Seq<IndentRule>, b: Seq<IndentRule>) -> bool {
    &&& a.len() == b.len()
    &&& forall|j: int| 0 <= j < a.len() ==> #[trigger] same_indent_rule(a[j], b[j])
}

/// The blocks of two trees that hold the same are the same.
pub proof fn lemma_same_blocks(a: &SyntaxTree, b: &SyntaxTree, i: int)
    requires
        a.wf(),
        same_tree(a, b),
        0 <= i <= a.elems.len(),
    ensures
        kept_before(a.elems@, i) == kept_before(b.elems@, i),
        tokens_before(a.elems@, i) == tokens_before(b.elems@, i),
        blocks_upto(a.elems@, i) == blocks_upto(b.elems@, i),
        elements_upto(a.elems@, i) == elements_upto(b.elems@, i),
        tokens_upto(a.elems@, i) == tokens_upto(b.elems@, i),
    decreases i,
{
    if i > 0 {
        lemma_same_blocks(a, b, i - 1);
        assert(same_element(a.elems[i - 1], b.elems[i - 1]));
        assert(link_ok(a.elems@, i - 1));
        lemma_same_count(a.elems@, b.elems@, a.elems[i - 1].parent as int);
    }
}

/// Two lists of elements that hold the same have the same number of
/// elements other than whitespace before any place.
pub proof fn lemma_same_count(a: Seq<SyntaxElement>, b: Seq<SyntaxElement>, i: int)
    requires
        same_elems(a, b),
    ensures
        i <= a.len() ==> kept_before(a, i) == kept_before(b, i),
    decreases i,
{
    if 0 < i <= a.len() {
        lemma_same_count(a, b, i - 1);
        assert(same_element(a[i - 1], b[i - 1]));
    }
}

/// The tokens around a place are found alike in two lists of elements that
/// hold the same.
pub proof fn lemma_same_neighbours(a: Seq<SyntaxElement>, b: Seq<SyntaxElement>, i: int)
    requires
        same_elems(a, b),
    ensures
        i <= a.len() ==> prev_token(a, i) == prev_token(b, i),
        0 <= i ==> next_token(a, i) == next_token(b, i),
        trivia_at(a, i) == trivia_at(b, i),
{
    lemma_same_prev(a, b, i);
    lemma_same_next(a, b, i);
    if 0 <= i < a.len() {
        assert(same_element(a[i], b[i]));
    }
}

/// The token before a place is found alike in two lists of elements that
/// hold the same.
pub proof fn lemma_same_prev(a: Seq<SyntaxElement>, b: Seq<SyntaxElement>, i: int)
    requires
        same_elems(a, b),
    ensures
        i <= a.len() ==> prev_token(a, i) == prev_token(b, i),
    decreases i,
{
    if 0 < i <= a.len() {
        assert(same_element(a[i - 1], b[i - 1]));
        lemma_same_prev(a, b, i - 1);
    }
}

/// The token behind a place is found alike in two lists of elements that
/// hold the same.
pub proof fn lemma_same_next(a: Seq<SyntaxElement>, b: Seq<SyntaxElement>, i: int)
    requires
        same_elems(a, b),
    ensures
        0 <= i ==> next_token(a, i) == next_token(b, i),
    decreases a.len() - i,
{
    if 0 <= i < a.len() {
        assert(same_element(a[i], b[i]));
        lemma_same_next(a, b, i + 1);
    }
}

/// The elements below an element end at the same place in two lists of
/// elements that hold the same.
pub proof fn lemma_same_end(a: Seq<SyntaxElement>, b: Seq<SyntaxElement>, i: int, j: int)
    requires
        same_elems(a, b),
        0 <= j,
    ensures
        elem_end(a, i, j) == elem_end(b, i, j),
        j <= elem_end(a, i, j) || elem_end(a, i, j) == a.len(),
    decreases a.len() - j,
{
    if j < a.len() {
        assert(same_element(a[j], b[j]));
        lemma_same_end(a, b, i, j + 1);
    }
}

/// The records that two trees of the same content start with are the same.
pub proof fn lemma_same_records(a: &SyntaxTree, b: &SyntaxTree, i: int)
    requires
        a.wf(),
        same_tree(a, b),
        0 <= i <= a.elems.len(),
    ensures
        records_upto(a, i) == records_upto(b, i),
    decreases i,
{
    if i > 0 {
        lemma_same_records(a, b, i - 1);
        assert(same_element(a.elems[i - 1], b.elems[i - 1]));
        assert(link_ok(a.elems@, i - 1));
        lemma_same_neighbours(a.elems@, b.elems@, i - 1);
        lemma_same_neighbours(a.elems@, b.elems@, i);
        lemma_same_neighbours(a.elems@, b.elems@, prev_token(a.elems@, i - 1));
        lemma_same_neighbours(a.elems@, b.elems@, next_token(a.elems@, i));
        lemma_same_end(a.elems@, b.elems@, i - 1, i);
        let end = elem_end(a.elems@, i - 1, i);
        if 0 <= end < a.elems.len() {
            assert(same_element(a.elems[end], b.elems[end]));
        }
        if i >= 2 {
            assert(same_element(a.elems[i - 2], b.elems[i - 2]));
        }
        assert(whitespace_of(a, i - 1) == whitespace_of(b, i - 1));
    }
}

/// The `p`-th token stands for one of the first `n` elements.
pub open spec fn has_text(elements: Seq<usize>, tokens: Seq<usize>, p: int, n: int) -> bool {
    tokens[p] < elements.len() && elements[tokens[p] as int] < n
}

/// Two lists of elements of the same content give the same text under the
/// same records.
pub proof fn lemma_same_text(
    a: Seq<SyntaxElement>,
    b: Seq<SyntaxElement>,
    elements: Seq<usize>,
    records: Seq<Whitespace>,
    tokens: Seq<usize>,
    q: int,
)
    requires
        same_elems(a, b),
        0 <= q <= tokens.len(),
        forall|p: int| 0 <= p < tokens.len() ==> #[trigger] has_text(elements, tokens, p, a.len() as int),
    ensures
        rendered(a, elements, records, tokens, q) == rendered(b, elements, records, tokens, q),
    decreases q,
{
    if q > 0 {
        lemma_same_text(a, b, elements, records, tokens, q - 1);
        assert(has_text(elements, tokens, q - 1, a.len() as int));
        let e = elements[tokens[q - 1] as int] as int;
        assert(same_element(a[e], b[e]));
    }
}

/// Patterns that name the same kinds accept the same blocks.
pub proof fn lemma_same_match(blocks: Seq<Block>, a: Pattern, b: Pattern, i: int)
    requires
        same_pattern(a, b),
    ensures
        block_matches(blocks, a, i) == block_matches(blocks, b, i),
{
}

/// The same spacing rules are found for a block in two lists of rules that
/// say the same.
pub proof fn lemma_same_first_spacing(
    blocks: Seq<Block>,
    a: Seq<SpacingRule>,
    b: Seq<SpacingRule>,
    i: int,
    leading: bool,
    from: int,
)
    requires
        same_spacing(a, b),
    ensures
        first_spacing(blocks, a, i, leading, from) == first_spacing(blocks, b, i, leading, from),
        from >= 0 ==> first_spacing(blocks, a, i, leading, from) >= 0,
    decreases a.len() - from,
{
    if from < a.len() {
        if from >= 0 {
            assert(same_spacing_rule(a[from], b[from]));
            lemma_same_match(blocks, a[from].pattern, b[from].pattern, i);
        }
        lemma_same_first_spacing(blocks, a, b, i, leading, from + 1);
    }
}

/// The spacing pass gives the same records under two lists of rules that
/// say the same.
pub proof fn lemma_same_spacing_result(
    blocks: Seq<Block>,
    records: Seq<Whitespace>,
    tokens: Seq<usize>,
    a: Seq<SpacingRule>,
    b: Seq<SpacingRule>,
)
    requires
        same_spacing(a, b),
    ensures
        spacing_result(blocks, records, tokens, a) == spacing_result(blocks, records, tokens, b),
{
    assert forall|k: int| 0 <= k < records.len() implies spacing_result(blocks, records, tokens, a)[k]
        == spacing_result(blocks, records, tokens, b)[k] by {
        let q = blocks[k].ordinal as int;
        lemma_same_first_spacing(blocks, a, b, tokens[q] as int, true, 0);
        lemma_same_first_spacing(blocks, a, b, tokens[q] as int, false, 0);
        lemma_same_first_spacing(blocks, a, b, tokens[q + 1] as int, true, 0);
        let lead = first_spacing(blocks, a, tokens[q] as int, true, 0);
        let trail = first_spacing(blocks, a, tokens[q] as int, false, 0);
        if lead < a.len() {
            assert(same_spacing_rule(a[lead], b[lead]));
        }
        if trail < a.len() {
            assert(same_spacing_rule(a[trail], b[trail]));
        }
        assert(spaced(blocks, records, tokens, a, q) == spaced(blocks, records, tokens, b, q));
    }
    assert(spacing_result(blocks, records, tokens, a) =~= spacing_result(blocks, records, tokens, b));
}

/// The same indent rules are found for a block in two lists of rules that
/// say the same.
pub proof fn lemma_same_first_indent(
    blocks: Seq<Block>,
    a: Seq<IndentRule>,
    b: Seq<IndentRule>,
    i: int,
    from: int,
)
    requires
        same_indent(a, b),
    ensures
        first_indent(blocks, a, i, from) == first_indent(blocks, b, i, from),
        from >= 0 ==> first_indent(blocks, a, i, from) >= 0,
    decreases a.len() - from,
{
    if from < a.len() {
        if from >= 0 {
            assert(same_indent_rule(a[from], b[from]));
            lemma_same_match(blocks, a[from].pattern, b[from].pattern, i);
        }
        lemma_same_first_indent(blocks, a, b, i, from + 1);
    }
}

/// Two lists of rules that say the same are at odds over the same blocks.
pub proof fn lemma_same_ambiguity(blocks: Seq<Block>, a: Seq<IndentRule>, b: Seq<IndentRule>)
    requires
        same_indent(a, b),
    ensures
        any_ambiguous(blocks, a) == any_ambiguous(blocks, b),
{
    assert forall|i: int| ambiguous(blocks, a, i) == ambiguous(blocks, b, i) by {
        lemma_same_first_indent(blocks, a, b, i, 0);
        lemma_same_first_indent(blocks, a, b, i, first_indent(blocks, a, i, 0) + 1);
    }
    if any_ambiguous(blocks, a) {
        let i = choose|i: int| 0 <= i < blocks.len() && #[trigger] ambiguous(blocks, a, i);
        assert(ambiguous(blocks, b, i));
    }
    if any_ambiguous(blocks, b) {
        let i = choose|i: int| 0 <= i < blocks.len() && #[trigger] ambiguous(blocks, b, i);
        assert(ambiguous(blocks, a, i));
    }
}

/// Two lists of patterns that name the same kinds have an anchor in the
/// same blocks.
pub proof fn lemma_same_anchors(blocks: Seq<Block>, a: Seq<Pattern>, b: Seq<Pattern>, i: int)
    requires
        same_patterns(a, b),
    ensures
        matches_any(blocks, a, i) == matches_any(blocks, b, i),
{
    if matches_any(blocks, a, i) {
        let j = choose|j: int| 0 <= j < a.len() && #[trigger] block_matches(blocks, a[j], i);
        assert(same_pattern(a[j], b[j]));
        assert(block_matches(blocks, b[j], i));
    }
    if matches_any(blocks, b, i) {
        let j = choose|j: int| 0 <= j < b.len() && #[trigger] block_matches(blocks, b[j], i);
        assert(same_pattern(a[j], b[j]));
        assert(block_matches(blocks, a[j], i));
    }
}

/// The nodes above a block add the same to its indent under two lists of
/// anchors that name the same kinds.
pub proof fn lemma_same_anchor_sum(
    blocks: Seq<Block>,
    records: Seq<Whitespace>,
    tokens: Seq<usize>,
    a: Seq<Pattern>,
    b: Seq<Pattern>,
    i: int,
)
    requires
        same_patterns(a, b),
    ensures
        anchor_sum(blocks, records, tokens, a, i) == anchor_sum(blocks, records, tokens, b, i),
    decreases i,
{
    if !(i <= 0 || i >= blocks.len() || blocks[i].parent >= i) {
        let p = blocks[i].parent as int;
        lemma_same_anchors(blocks, a, b, p);
        assert(contribution(blocks, records, tokens, a, p) == contribution(
            blocks,
            records,
            tokens,
            b,
            p,
        ));
        lemma_same_anchor_sum(blocks, records, tokens, a, b, p);
    }
}

/// The indent pass gives the same records under two lists of rules that say
/// the same.
pub proof fn lemma_same_indent_result(
    blocks: Seq<Block>,
    records: Seq<Whitespace>,
    tokens: Seq<usize>,
    a: Seq<IndentRule>,
    b: Seq<IndentRule>,
    unit: u32,
    n: int,
)
    requires
        same_indent(a, b),
    ensures
        indent_upto(blocks, records, tokens, a, unit, n) == indent_upto(
            blocks,
            records,
            tokens,
            b,
            unit,
            n,
        ),
    decreases n,
{
    if n > 0 {
        lemma_same_indent_result(blocks, records, tokens, a, b, unit, n - 1);
        let before = indent_upto(blocks, records, tokens, a, unit, n - 1);
        lemma_same_first_indent(blocks, a, b, n - 1, 0);
        let first = first_indent(blocks, a, n - 1, 0);
        if first < a.len() {
            assert(same_indent_rule(a[first], b[first]));
            lemma_same_anchor_sum(
                blocks,
                before,
                tokens,
                a[first].anchors@,
                b[first].anchors@,
                n - 1,
            );
            assert(indented(blocks, before, tokens, a[first], unit, n - 1) == indented(
                blocks,
                before,
                tokens,
                b[first],
                unit,
                n - 1,
            ));
        }
    }
}

/// Formatting is a matter of content: two trees that hold the same
/// elements, formatted by rule tables that hold the same rules and the same
/// unit, give the same text or fail alike.
pub proof fn lemma_format_deterministic(
    tree: &SyntaxTree,
    spacing: &SpacingDsl,
    indent: &IndentDsl,
    tree2: &SyntaxTree,
    spacing2: &SpacingDsl,
    indent2: &IndentDsl,
)
    requires
        tree.wf(),
        same_tree(tree, tree2),
        same_spacing(spacing.rules@, spacing2.rules@),
        same_indent(indent.rules@, indent2.rules@),
        indent.unit == indent2.unit,
    ensures
        format_spec(tree2, spacing2, indent2) == format_spec(tree, spacing, indent),
{
    let n = tree.elems.len() as int;
    let blocks = blocks_upto(tree.elems@, n);
    let tokens = tokens_upto(tree.elems@, n);
    let elements = elements_upto(tree.elems@, n);
    let fresh = records_upto(tree, n);
    lemma_same_blocks(tree, tree2, n);
    lemma_same_records(tree, tree2, n);
    lemma_same_ambiguity(blocks, indent.rules@, indent2.rules@);
    lemma_same_spacing_result(blocks, fresh, tokens, spacing.rules@, spacing2.rules@);
    let spaced = spacing_result(blocks, fresh, tokens, spacing.rules@);
    lemma_same_indent_result(
        blocks,
        spaced,
        tokens,
        indent.rules@,
        indent2.rules@,
        indent.unit,
        blocks.len() as int,
    );
    let done = pass_result(
        blocks,
        fresh,
        tokens,
        spacing.rules@,
        indent.rules@,
        indent.unit,
    );
    lemma_fresh_tree(tree);
    assert forall|p: int| 0 <= p < tokens.len() implies #[trigger] has_text(
        elements,
        tokens,
        p,
        n,
    ) by {
        lemma_built_upto(tree, n);
        assert(token_ok(blocks, tokens, p));
    }
    lemma_same_text(tree.elems@, tree2.elems@, elements, done, tokens, tokens.len() as int);
}

} // verus!
