//! What holds of every run: the laws that the passes and the renderer obey
//! together.

use vstd::prelude::*;
use crate::dsl::{IndentDsl, IndentRule, SpacingDsl, SpacingRule};
use crate::edit_tree::{
    block_of,
    block_ok,
    blocks_upto,
    blocks_wf,
    elements_upto,
    kept_before,
    lead_of,
    lemma_anchor_range,
    lemma_blocks_nested,
    lemma_elements_rank,
    lemma_kept_before_grows,
    lemma_push_block,
    next_token,
    prev_token,
    records_upto,
    token_ok,
    token_step,
    tokens_before,
    tokens_upto,
    trivia_at,
    whitespace_of,
    Block,
};
use crate::engine::{
    first_indent,
    format_spec,
    indent_step,
    indent_upto,
    indented,
    pass_result,
    spaced,
    spacing_result,
};
use crate::render::{rendered, token_text};
use crate::rerun::{
    calm,
    edge_value,
    lemma_calm_upto,
    lemma_rendered_alike,
    lemma_runs_end_alike,
    lemma_spaced_gap,
    lemma_tokens_of_blocks,
    resumes,
    undecided,
};
use crate::syntax::{link_ok, Shape, SyntaxElement, SyntaxTree};
use crate::whitespace::{blanks, count_blanks, Gap, Whitespace};

verus! {

/// The blocks hang together as the blocks of a tree do; there may be none
/// yet.
pub open spec fn growing(blocks: Seq<Block>, tokens: Seq<usize>) -> bool {
    &&& forall|k: int| 0 <= k < blocks.len() ==> #[trigger] block_ok(blocks, tokens, k)
    &&& forall|q: int| 0 <= q < tokens.len() ==> #[trigger] token_ok(blocks, tokens, q)
    &&& blocks.len() >= 1 ==> tokens.len() == blocks.last().ordinal + token_step(blocks.last())
    &&& blocks.len() == 0 ==> tokens.len() == 0
}

/// There are no more tokens before `i` than elements.
pub proof fn lemma_tokens_before_bound(elems: Seq<SyntaxElement>, i: int)
    requires
        0 <= i,
    ensures
        tokens_before(elems, i) <= i,
    decreases i,
{
    if i > 0 {
        lemma_tokens_before_bound(elems, i - 1);
    }
}

/// The blocks of a well-formed syntax tree, taken element by element, hang
/// together at every step; there is one per element that is no whitespace,
/// each with its element and its record, and each record is undecided.
pub proof fn lemma_built_upto(tree: &SyntaxTree, i: int)
    requires
        tree.wf(),
        0 <= i <= tree.elems.len(),
    ensures
        growing(blocks_upto(tree.elems@, i), tokens_upto(tree.elems@, i)),
        blocks_upto(tree.elems@, i).len() == kept_before(tree.elems@, i),
        elements_upto(tree.elems@, i).len() == kept_before(tree.elems@, i),
        records_upto(tree, i).len() == kept_before(tree.elems@, i),
        tokens_upto(tree.elems@, i).len() == tokens_before(tree.elems@, i),
        forall|j: int|
            0 <= j < i && tree.elems[j].shape != Shape::Whitespace ==> #[trigger] blocks_upto(
                tree.elems@,
                i,
            )[kept_before(tree.elems@, j) as int] == block_of(tree.elems@, j),
        forall|k: int|
            0 <= k < kept_before(tree.elems@, i) ==> (#[trigger] elements_upto(tree.elems@, i)[k])
                < i,
        forall|k: int|
            0 <= k < kept_before(tree.elems@, i) ==> (#[trigger] records_upto(tree, i)[k]).fixed == (
                false,
                false,
            ),
    decreases i,
{
    let elems = tree.elems@;
    if i > 0 {
        lemma_built_upto(tree, i - 1);
        lemma_tokens_before_bound(elems, i - 1);
        lemma_kept_before_grows(elems, i - 1, tree.elems.len() as int);
        assert(link_ok(elems, i - 1));
        let before = blocks_upto(elems, i - 1);
        let tokens = tokens_upto(elems, i - 1);
        if elems[i - 1].shape != Shape::Whitespace {
            let block = block_of(elems, i - 1);
            let up = elems[i - 1].parent as int;
            if i - 1 >= 1 {
                lemma_kept_before_grows(elems, up, i - 1);
                assert(before[kept_before(elems, up) as int] == block_of(elems, up));
            }
            lemma_push_block(
                before,
                tokens,
                block,
                blocks_upto(elems, i),
                tokens_upto(elems, i),
            );
            assert forall|j: int| 0 <= j < i && elems[j].shape != Shape::Whitespace implies #[trigger] blocks_upto(
                elems,
                i,
            )[kept_before(elems, j) as int] == block_of(elems, j) by {
                if j < i - 1 {
                    lemma_kept_before_grows(elems, j, i - 1);
                    assert(before[kept_before(elems, j) as int] == block_of(elems, j));
                }
            }
        } else {
            assert forall|j: int| 0 <= j < i && elems[j].shape != Shape::Whitespace implies #[trigger] blocks_upto(
                elems,
                i,
            )[kept_before(elems, j) as int] == block_of(elems, j) by {
                assert(before[kept_before(elems, j) as int] == block_of(elems, j));
            }
        }
    }
}

/// The blocks of a well-formed syntax tree form a tree, with one record and
/// one element each, and every record is undecided.
pub proof fn lemma_fresh_tree(tree: &SyntaxTree)
    requires
        tree.wf(),
    ensures
        ({
            let n = tree.elems.len() as int;
            let blocks = blocks_upto(tree.elems@, n);
            &&& blocks_wf(blocks, tokens_upto(tree.elems@, n))
            &&& records_upto(tree, n).len() == blocks.len()
            &&& elements_upto(tree.elems@, n).len() == blocks.len()
            &&& forall|k: int|
                0 <= k < blocks.len() ==> (#[trigger] records_upto(tree, n)[k]).fixed == (false, false)
        }),
{
    let n = tree.elems.len() as int;
    lemma_built_upto(tree, n);
    lemma_kept_before_grows(tree.elems@, 0, n);
    lemma_blocks_nested(tree);
}

/// The indent pass keeps the number of records.
pub proof fn lemma_indent_keeps_len(
    blocks: Seq<Block>,
    records: Seq<Whitespace>,
    tokens: Seq<usize>,
    rules: Seq<IndentRule>,
    unit: u32,
    n: int,
)
    requires
        records.len() == blocks.len(),
        n <= blocks.len(),
    ensures
        indent_upto(blocks, records, tokens, rules, unit, n).len() == records.len(),
    decreases n,
{
    if n > 0 {
        lemma_indent_keeps_len(blocks, records, tokens, rules, unit, n - 1);
        let before = indent_upto(blocks, records, tokens, rules, unit, n - 1);
        assert(indent_upto(blocks, records, tokens, rules, unit, n) == indent_step(
            blocks,
            before,
            tokens,
            rules,
            unit,
            n - 1,
        ));
        let first = first_indent(blocks, rules, n - 1, 0);
        lemma_anchor_range(blocks, n - 1);
        if first < rules.len() {
            assert(indented(blocks, before, tokens, rules[first], unit, n - 1).len()
                == before.len());
        }
    }
}

/// The indent pass changes the blanks in front of a block and nothing else
/// of its record that the text shows: the line breaks on both sides, the
/// blanks behind and the mark of a block that starts a line stay as they
/// are, for every block.
pub proof fn lemma_indent_keeps_lines(
    blocks: Seq<Block>,
    records: Seq<Whitespace>,
    tokens: Seq<usize>,
    rules: Seq<IndentRule>,
    unit: u32,
    n: int,
    k: int,
)
    requires
        records.len() == blocks.len(),
        n <= blocks.len(),
        0 <= k < blocks.len(),
    ensures
        ({
            let done = indent_upto(blocks, records, tokens, rules, unit, n)[k];
            &&& done.new_line == records[k].new_line
            &&& done.text_len.1 == records[k].text_len.1
            &&& done.starts_with_lf == records[k].starts_with_lf
            &&& done.fixed.1 == records[k].fixed.1
        }),
    decreases n,
{
    if n > 0 {
        lemma_indent_keeps_lines(blocks, records, tokens, rules, unit, n - 1, k);
        lemma_indent_keeps_len(blocks, records, tokens, rules, unit, n - 1);
        lemma_anchor_range(blocks, n - 1);
    }
}

/// A block that no indent rule matches, or whose record does not start with
/// a line break, has no record written on its behalf.
pub proof fn lemma_no_write(
    blocks: Seq<Block>,
    records: Seq<Whitespace>,
    tokens: Seq<usize>,
    rules: Seq<IndentRule>,
    unit: u32,
    i: int,
)
    requires
        first_indent(blocks, rules, i, 0) >= rules.len() || !records[i].starts_with_lf,
    ensures
        indent_step(blocks, records, tokens, rules, unit, i) == records,
{
}

/// Without spacing rules the spacing pass leaves every record as it is.
pub proof fn lemma_no_spacing_rules(
    blocks: Seq<Block>,
    records: Seq<Whitespace>,
    tokens: Seq<usize>,
    rules: Seq<SpacingRule>,
)
    requires
        blocks_wf(blocks, tokens),
        records.len() == blocks.len(),
        rules.len() == 0,
    ensures
        spacing_result(blocks, records, tokens, rules) == records,
{
    let result = spacing_result(blocks, records, tokens, rules);
    assert forall|k: int| 0 <= k < records.len() implies result[k] == records[k] by {
        assert(block_ok(blocks, tokens, k));
    }
    assert(result =~= records);
}

/// Without indent rules the indent pass leaves every record as it is.
pub proof fn lemma_no_indent_rules(
    blocks: Seq<Block>,
    records: Seq<Whitespace>,
    tokens: Seq<usize>,
    rules: Seq<IndentRule>,
    unit: u32,
    n: int,
)
    requires
        rules.len() == 0,
    ensures
        indent_upto(blocks, records, tokens, rules, unit, n) == records,
    decreases n,
{
    if n > 0 {
        lemma_no_indent_rules(blocks, records, tokens, rules, unit, n - 1);
    }
}

/// With two empty tables a run leaves every record as the tree was built:
/// what the records say of the text is overwritten by rules only.
pub proof fn lemma_empty_tables_keep_records(
    tree: &SyntaxTree,
    spacing: &SpacingDsl,
    indent: &IndentDsl,
)
    requires
        tree.wf(),
        spacing.rules.len() == 0,
        indent.rules.len() == 0,
    ensures
        ({
            let n = tree.elems.len() as int;
            pass_result(
                blocks_upto(tree.elems@, n),
                records_upto(tree, n),
                tokens_upto(tree.elems@, n),
                spacing.rules@,
                indent.rules@,
                indent.unit,
            ) == records_upto(tree, n)
        }),
{
    let n = tree.elems.len() as int;
    let blocks = blocks_upto(tree.elems@, n);
    let tokens = tokens_upto(tree.elems@, n);
    let fresh = records_upto(tree, n);
    lemma_fresh_tree(tree);
    lemma_no_spacing_rules(blocks, fresh, tokens, spacing.rules@);
    lemma_no_indent_rules(blocks, fresh, tokens, indent.rules@, indent.unit, blocks.len() as int);
}

/// The text of a gap holds blanks and line breaks only.
pub proof fn lemma_gap_text_is_blank(gap: Gap)
    ensures
        forall|i: int|
            0 <= i < gap.text().len() ==> #[trigger] gap.text()[i] == ' ' || gap.text()[i] == '\n',
{
}

/// The text of a run ends with exactly one line break, provided that the
/// last token has a text that does not end with a line break itself.
pub proof fn lemma_trailing_newline(tree: &SyntaxTree, spacing: &SpacingDsl, indent: &IndentDsl)
    requires
        tree.wf(),
        format_spec(tree, spacing, indent).is_ok(),
        ({
            let n = tree.elems.len() as int;
            let tokens = tokens_upto(tree.elems@, n);
            let last = token_text(tree.elems@, elements_upto(tree.elems@, n), tokens, tokens.len() - 1);
            last.len() > 0 && last.last() != '\n'
        }),
    ensures
        ({
            let text = format_spec(tree, spacing, indent).unwrap();
            &&& text.len() >= 2
            &&& text[text.len() - 1] == '\n'
            &&& text[text.len() - 2] != '\n'
        }),
{
    let n = tree.elems.len() as int;
    let blocks = blocks_upto(tree.elems@, n);
    let tokens = tokens_upto(tree.elems@, n);
    let elements = elements_upto(tree.elems@, n);
    let fresh = records_upto(tree, n);
    lemma_fresh_tree(tree);
    let spaced = spacing_result(blocks, fresh, tokens, spacing.rules@);
    lemma_indent_keeps_len(blocks, spaced, tokens, indent.rules@, indent.unit, blocks.len() as int);
    let records = pass_result(blocks, fresh, tokens, spacing.rules@, indent.rules@, indent.unit);
    let tail = seq!['\n'];
    let q = tokens.len() as int;
    let head = rendered(tree.elems@, elements, records, tokens, q);
    let last = token_text(tree.elems@, elements, tokens, q - 1);
    assert(head == rendered(tree.elems@, elements, records, tokens, q - 1) + lead_of(
        records,
        tokens,
        q - 1,
    ).text() + last);
    let text = format_spec(tree, spacing, indent).unwrap();
    assert(text == head + tail);
    assert(text[text.len() - 2] == last.last());
}

/// `again` is a tree of the text that formatting `tree` gave: it has the
/// same blocks, its tokens have the same texts, and the record of every
/// token describes, in front of the token, the gap that the run on `tree`
/// resolved.
pub open spec fn reads_back(
    tree: &SyntaxTree,
    again: &SyntaxTree,
    spacing: &SpacingDsl,
    indent: &IndentDsl,
) -> bool {
    let n = tree.elems.len() as int;
    let m = again.elems.len() as int;
    let blocks = blocks_upto(tree.elems@, n);
    let tokens = tokens_upto(tree.elems@, n);
    let done = pass_result(
        blocks,
        records_upto(tree, n),
        tokens,
        spacing.rules@,
        indent.rules@,
        indent.unit,
    );
    &&& blocks_upto(again.elems@, m) == blocks
    &&& forall|q: int|
        0 <= q < tokens.len() ==> #[trigger] token_text(
            again.elems@,
            elements_upto(again.elems@, m),
            tokens,
            q,
        ) == token_text(tree.elems@, elements_upto(tree.elems@, n), tokens, q)
    &&& forall|q: int|
        0 <= q < tokens.len() ==> (#[trigger] records_upto(again, m)[tokens[q] as int]).lead_gap()
            == lead_of(done, tokens, q)
}

/// The indent pass is calm on the tree as the spacing pass leaves it: a
/// block that an indent rule matches is not the root and has a first token;
/// its record starts with a line break exactly where the gap in front of
/// that token holds one, and then the record of the token starts with one
/// too; and no anchor of the rule above the block begins with that token.
pub open spec fn calm_run(tree: &SyntaxTree, spacing: &SpacingDsl, indent: &IndentDsl) -> bool {
    let n = tree.elems.len() as int;
    let blocks = blocks_upto(tree.elems@, n);
    let tokens = tokens_upto(tree.elems@, n);
    calm(
        blocks,
        spacing_result(blocks, records_upto(tree, n), tokens, spacing.rules@),
        tokens,
        indent.rules@,
    )
}

/// Formatting is idempotent on calm trees: where the indent pass is calm on
/// a tree and on a tree of the text that the run on it gave, that second
/// tree is formatted to that same text.
pub proof fn lemma_format_idempotent(
    tree: &SyntaxTree,
    again: &SyntaxTree,
    spacing: &SpacingDsl,
    indent: &IndentDsl,
)
    requires
        tree.wf(),
        again.wf(),
        format_spec(tree, spacing, indent).is_ok(),
        reads_back(tree, again, spacing, indent),
        calm_run(tree, spacing, indent),
        calm_run(again, spacing, indent),
    ensures
        format_spec(again, spacing, indent) == format_spec(tree, spacing, indent),
{
    let n = tree.elems.len() as int;
    let m = again.elems.len() as int;
    let blocks = blocks_upto(tree.elems@, n);
    let tokens = tokens_upto(tree.elems@, n);
    let rules = indent.rules@;
    let unit = indent.unit;
    let fresh = records_upto(tree, n);
    let fresh2 = records_upto(again, m);
    lemma_fresh_tree(tree);
    lemma_fresh_tree(again);
    lemma_tokens_of_blocks(blocks, tokens, tokens_upto(again.elems@, m));
    let first = spacing_result(blocks, fresh, tokens, spacing.rules@);
    let second = spacing_result(blocks, fresh2, tokens, spacing.rules@);
    let last = indent_upto(blocks, first, tokens, rules, unit, blocks.len() as int);
    let last2 = indent_upto(blocks, second, tokens, rules, unit, blocks.len() as int);
    lemma_calm_upto(blocks, first, tokens, rules, unit, blocks.len() as int);
    lemma_calm_upto(blocks, second, tokens, rules, unit, blocks.len() as int);
    let values = Seq::new(tokens.len(), |q: int| edge_value(blocks, tokens, spacing.rules@, q));
    let gaps = Seq::new(tokens.len(), |q: int| fresh[tokens[q] as int].lead_gap());
    assert forall|q: int| 0 <= q < tokens.len() implies #[trigger] undecided(fresh, tokens, q) by {
        assert(token_ok(blocks, tokens, q));
    }
    assert forall|q: int| 0 <= q < tokens.len() implies #[trigger] undecided(fresh2, tokens, q) by {
        assert(token_ok(blocks, tokens, q));
    }
    assert forall|q: int| 0 <= q < tokens.len() implies #[trigger] resumes(
        blocks,
        tokens,
        rules,
        unit,
        first,
        second,
        values,
        gaps,
        q,
    ) by {
        lemma_spaced_gap(blocks, fresh, tokens, spacing.rules@, q);
        lemma_spaced_gap(blocks, fresh2, tokens, spacing.rules@, q);
        assert(fresh2[tokens[q] as int].lead_gap() == lead_of(last, tokens, q));
    }
    assert forall|q: int| 0 <= q < tokens.len() implies #[trigger] lead_of(last2, tokens, q)
        == lead_of(last, tokens, q) by {
        lemma_runs_end_alike(blocks, tokens, rules, unit, first, second, values, gaps, q);
    }
    lemma_rendered_alike(
        tree.elems@,
        elements_upto(tree.elems@, n),
        last,
        again.elems@,
        elements_upto(again.elems@, m),
        last2,
        tokens,
        tokens.len() as int,
    );
}

/// Every record that a tree starts with is that of the element of its
/// block.
pub proof fn lemma_records_of_elements(tree: &SyntaxTree, i: int)
    requires
        tree.wf(),
        0 <= i <= tree.elems.len(),
    ensures
        forall|k: int|
            0 <= k < records_upto(tree, i).len() ==> #[trigger] records_upto(tree, i)[k]
                == whitespace_of(tree, elements_upto(tree.elems@, i)[k] as int),
    decreases i,
{
    if i > 0 {
        lemma_records_of_elements(tree, i - 1);
        lemma_built_upto(tree, i - 1);
        lemma_built_upto(tree, i);
        let before = records_upto(tree, i - 1);
        assert forall|k: int| 0 <= k < records_upto(tree, i).len() implies #[trigger] records_upto(
            tree,
            i,
        )[k] == whitespace_of(tree, elements_upto(tree.elems@, i)[k] as int) by {
            if k < before.len() {
                assert(before[k] == whitespace_of(tree, elements_upto(tree.elems@, i - 1)[k] as int));
            }
        }
    }
}

/// `again` is a tree of the text that formatting `tree` gave, as a parser
/// hands it back: it has the same blocks, its tokens have the same texts,
/// and what stands right in front of every token is the text of the gap
/// that the run on `tree` resolved, in one whitespace token, or no
/// whitespace at all where that gap is empty.
pub open spec fn parses_back(
    tree: &SyntaxTree,
    again: &SyntaxTree,
    spacing: &SpacingDsl,
    indent: &IndentDsl,
) -> bool {
    let n = tree.elems.len() as int;
    let m = again.elems.len() as int;
    let blocks = blocks_upto(tree.elems@, n);
    let tokens = tokens_upto(tree.elems@, n);
    let done = pass_result(
        blocks,
        records_upto(tree, n),
        tokens,
        spacing.rules@,
        indent.rules@,
        indent.unit,
    );
    &&& blocks_upto(again.elems@, m) == blocks
    &&& forall|q: int|
        0 <= q < tokens.len() ==> #[trigger] token_text(
            again.elems@,
            elements_upto(again.elems@, m),
            tokens,
            q,
        ) == token_text(tree.elems@, elements_upto(tree.elems@, n), tokens, q)
    &&& forall|q: int|
        0 <= q < tokens.len() ==> trivia_at(
            again.elems@,
            prev_token(again.elems@, elements_upto(again.elems@, m)[tokens[q] as int] as int),
        ) == (#[trigger] lead_of(done, tokens, q)).text()
}

/// Formatting is idempotent on the texts of calm trees: where the indent
/// pass is calm on a tree and on the tree that a parser makes of the text of
/// the run on it, that second tree is formatted to that same text.
pub proof fn lemma_format_idempotent_on_text(
    tree: &SyntaxTree,
    again: &SyntaxTree,
    spacing: &SpacingDsl,
    indent: &IndentDsl,
)
    requires
        tree.wf(),
        again.wf(),
        format_spec(tree, spacing, indent).is_ok(),
        parses_back(tree, again, spacing, indent),
        calm_run(tree, spacing, indent),
        calm_run(again, spacing, indent),
    ensures
        format_spec(again, spacing, indent) == format_spec(tree, spacing, indent),
{
    let n = tree.elems.len() as int;
    let m = again.elems.len() as int;
    let blocks = blocks_upto(tree.elems@, n);
    let tokens = tokens_upto(tree.elems@, n);
    let done = pass_result(
        blocks,
        records_upto(tree, n),
        tokens,
        spacing.rules@,
        indent.rules@,
        indent.unit,
    );
    lemma_fresh_tree(tree);
    lemma_fresh_tree(again);
    lemma_records_of_elements(again, m);
    lemma_built_upto(again, m);
    assert(again.elems.len() <= usize::MAX);
    lemma_elements_rank(again.elems@, m);
    assert forall|q: int| 0 <= q < tokens.len() implies (#[trigger] records_upto(
        again,
        m,
    )[tokens[q] as int]).lead_gap() == lead_of(done, tokens, q) by {
        assert(token_ok(blocks, tokens, q));
        let place = elements_upto(again.elems@, m)[tokens[q] as int];
        let e = place as int;
        assert(kept_before(again.elems@, e) == tokens[q] && again.elems[e].shape
            != Shape::Whitespace);
        assert(blocks[kept_before(again.elems@, e) as int] == block_of(again.elems@, e));
        assert(again.elems[e].shape == Shape::Token);
        let gap = lead_of(done, tokens, q);
        assert(gap.text() == trivia_at(again.elems@, prev_token(again.elems@, e)));
        lemma_gap_reads_back(gap, trivia_at(again.elems@, next_token(again.elems@, e + 1)));
    }
    lemma_format_idempotent(tree, again, spacing, indent);
}

/// `n` blanks hold no line break, and all of them count.
pub proof fn lemma_blanks_count(n: nat)
    ensures
        count_blanks(blanks(n)) == n,
        count_blanks(seq!['\n'] + blanks(n)) == n,
        !blanks(n).contains('\n'),
    decreases n,
{
    if n > 0 {
        lemma_blanks_count((n - 1) as nat);
        assert(blanks(n).drop_last() =~= blanks((n - 1) as nat));
        assert((seq!['\n'] + blanks(n)).drop_last() =~= seq!['\n'] + blanks((n - 1) as nat));
    } else {
        assert(seq!['\n'] + blanks(0) =~= seq!['\n']);
        assert(seq!['\n'].drop_last() =~= Seq::<char>::empty());
        assert(count_blanks(seq!['\n'].drop_last()) == 0);
    }
}

/// A gap is read back from its own text: the record of a block that has the
/// text of a gap in front of it describes that gap.
pub proof fn lemma_gap_reads_back(gap: Gap, next: Seq<char>)
    ensures
        Whitespace::of_trivia(gap.text(), next).lead_gap() == gap,
{
    lemma_blanks_count(gap.spaces as nat);
    let text = gap.text();
    if gap.newline {
        assert(text[0] == '\n');
    } else {
        assert(text =~= blanks(gap.spaces as nat));
    }
}

/// The places of the tokens among the first `i` elements, in order and
/// without the whitespace.
pub open spec fn token_places(elems: Seq<SyntaxElement>, i: int) -> Seq<usize>
    decreases i,
{
    if i <= 0 {
        Seq::empty()
    } else if elems[i - 1].shape == Shape::Token {
        token_places(elems, i - 1).push((i - 1) as usize)
    } else {
        token_places(elems, i - 1)
    }
}

/// The token blocks of a tree, walked in order, are the tokens of the
/// syntax tree other than whitespace: all of them, each once, in the order
/// of the text. The passes keep the blocks, so this holds at all times.
pub proof fn lemma_tokens_in_order(tree: &SyntaxTree, i: int)
    requires
        tree.wf(),
        0 <= i <= tree.elems.len(),
    ensures
        token_places(tree.elems@, i).len() == tokens_upto(tree.elems@, i).len(),
        forall|q: int|
            0 <= q < tokens_upto(tree.elems@, i).len() ==> #[trigger] token_places(tree.elems@, i)[q]
                == elements_upto(tree.elems@, i)[tokens_upto(tree.elems@, i)[q] as int],
    decreases i,
{
    let elems = tree.elems@;
    if i > 0 {
        lemma_tokens_in_order(tree, i - 1);
        lemma_built_upto(tree, i - 1);
        lemma_built_upto(tree, i);
        let tokens = tokens_upto(elems, i - 1);
        let blocks = blocks_upto(elems, i - 1);
        assert forall|q: int| 0 <= q < tokens_upto(elems, i).len() implies #[trigger] token_places(
            elems,
            i,
        )[q] == elements_upto(elems, i)[tokens_upto(elems, i)[q] as int] by {
            let before = elements_upto(elems, i - 1);
            let after = elements_upto(elems, i);
            lemma_kept_before_grows(elems, i - 1, i);
            if q < tokens.len() {
                assert(token_ok(blocks, tokens, q));
                assert(token_places(elems, i - 1)[q] == before[tokens[q] as int]);
                assert(tokens_upto(elems, i)[q] == tokens[q]);
                assert(after[tokens[q] as int] == before[tokens[q] as int]);
            } else {
                assert(tokens_upto(elems, i)[q] == kept_before(elems, i - 1));
                assert(after[kept_before(elems, i - 1) as int] == i - 1);
            }
        }
    }
}

/// The texts of the tokens among the first `i` elements, in order and
/// without the whitespace.
pub open spec fn token_texts(elems: Seq<SyntaxElement>, i: int) -> Seq<Seq<char>>
    decreases i,
{
    if i <= 0 {
        Seq::empty()
    } else if elems[i - 1].shape == Shape::Token {
        token_texts(elems, i - 1).push(elems[i - 1].text@)
    } else {
        token_texts(elems, i - 1)
    }
}

/// The first `q` of `texts`, each behind the text of its gap.
pub open spec fn woven(gaps: Seq<Gap>, texts: Seq<Seq<char>>, q: int) -> Seq<char>
    decreases q,
{
    if q <= 0 {
        Seq::empty()
    } else {
        woven(gaps, texts, q - 1) + gaps[q - 1].text() + texts[q - 1]
    }
}

/// The token blocks of a tree stand for its tokens, in their order.
pub proof fn lemma_token_texts(tree: &SyntaxTree, i: int)
    requires
        tree.wf(),
        0 <= i <= tree.elems.len(),
    ensures
        token_texts(tree.elems@, i).len() == tokens_upto(tree.elems@, i).len(),
        forall|q: int|
            0 <= q < tokens_upto(tree.elems@, i).len() ==> #[trigger] token_texts(tree.elems@, i)[q]
                == token_text(
                tree.elems@,
                elements_upto(tree.elems@, i),
                tokens_upto(tree.elems@, i),
                q,
            ),
    decreases i,
{
    let elems = tree.elems@;
    if i > 0 {
        lemma_token_texts(tree, i - 1);
        lemma_built_upto(tree, i - 1);
        lemma_built_upto(tree, i);
        let tokens = tokens_upto(elems, i - 1);
        let blocks = blocks_upto(elems, i - 1);
        assert forall|q: int| 0 <= q < tokens_upto(elems, i).len() implies #[trigger] token_texts(
            elems,
            i,
        )[q] == token_text(elems, elements_upto(elems, i), tokens_upto(elems, i), q) by {
            let before = elements_upto(elems, i - 1);
            let after = elements_upto(elems, i);
            lemma_kept_before_grows(elems, i - 1, i);
            assert(before.len() == kept_before(elems, i - 1));
            if q < tokens.len() {
                assert(token_ok(blocks, tokens, q));
                assert(token_texts(elems, i - 1)[q] == token_text(elems, before, tokens, q));
                assert(tokens_upto(elems, i)[q] == tokens[q]);
                assert(after[tokens[q] as int] == before[tokens[q] as int]);
            } else {
                assert(elems[i - 1].shape == Shape::Token);
                assert(tokens_upto(elems, i)[q] == kept_before(elems, i - 1));
                assert(after[kept_before(elems, i - 1) as int] == i - 1);
            }
        }
    }
}

/// The text that the records give is woven of the texts of the tokens and
/// the gaps that the records resolve.
pub proof fn lemma_rendered_is_woven(
    elems: Seq<SyntaxElement>,
    elements: Seq<usize>,
    records: Seq<Whitespace>,
    tokens: Seq<usize>,
    texts: Seq<Seq<char>>,
    q: int,
)
    requires
        0 <= q <= tokens.len(),
        texts.len() == tokens.len(),
        forall|p: int|
            0 <= p < tokens.len() ==> #[trigger] texts[p] == token_text(elems, elements, tokens, p),
    ensures
        rendered(elems, elements, records, tokens, q) == woven(
            Seq::new(tokens.len(), |p: int| lead_of(records, tokens, p)),
            texts,
            q,
        ),
    decreases q,
{
    if q > 0 {
        lemma_rendered_is_woven(elems, elements, records, tokens, texts, q - 1);
        assert(texts[q - 1] == token_text(elems, elements, tokens, q - 1));
    }
}

/// Formatting keeps the tokens: the new text is made of the texts of the
/// tokens of the tree, all of them and in their order, with nothing but a
/// gap of blanks and line breaks in front of each and one line break at the
/// end.
pub proof fn lemma_tokens_preserved(tree: &SyntaxTree, spacing: &SpacingDsl, indent: &IndentDsl)
    requires
        tree.wf(),
        format_spec(tree, spacing, indent).is_ok(),
    ensures
        ({
            let texts = token_texts(tree.elems@, tree.elems.len() as int);
            exists|gaps: Seq<Gap>|
                gaps.len() == texts.len() && format_spec(tree, spacing, indent).unwrap()
                    == #[trigger] woven(gaps, texts, texts.len() as int) + seq!['\n']
        }),
{
    let n = tree.elems.len() as int;
    let blocks = blocks_upto(tree.elems@, n);
    let tokens = tokens_upto(tree.elems@, n);
    let elements = elements_upto(tree.elems@, n);
    let fresh = records_upto(tree, n);
    let texts = token_texts(tree.elems@, n);
    lemma_fresh_tree(tree);
    lemma_token_texts(tree, n);
    let spaced = spacing_result(blocks, fresh, tokens, spacing.rules@);
    let last = indent_upto(blocks, spaced, tokens, indent.rules@, indent.unit, blocks.len() as int);
    lemma_indent_keeps_len(blocks, spaced, tokens, indent.rules@, indent.unit, blocks.len() as int);
    let done = last;
    let gaps = Seq::new(tokens.len(), |p: int| lead_of(done, tokens, p));
    lemma_rendered_is_woven(tree.elems@, elements, done, tokens, texts, tokens.len() as int);
    assert(format_spec(tree, spacing, indent).unwrap() == woven(gaps, texts, texts.len() as int)
        + seq!['\n']);
}

} // verus!
