//! Why a second run changes nothing, where it changes nothing: how the gaps
//! of a run that begins where another run ended relate to the gaps of that
//! run, pass by pass. The indent pass is followed on calm trees: trees on
//! which a block that an indent rule matches starts a line exactly where
//! its first token does, and on which no anchor of the rule begins with
//! that token.

use vstd::prelude::*;
use crate::dsl::{IndentRule, SpaceValue, SpacingRule};
use crate::edit_tree::{
    anchor,
    block_ok,
    blocks_wf,
    lead_of,
    lemma_anchor_range,
    token_ok,
    Block,
};
use crate::engine::{
    anchor_sum,
    contribution,
    first_indent,
    first_spacing,
    indent_step,
    indent_upto,
    indent_width,
    lead_rule,
    matches_any,
    spaced,
    spacing_result,
    target,
    trail_rule,
};
use crate::pattern::Pattern;
use crate::render::{rendered, token_text};
use crate::syntax::SyntaxElement;
use crate::whitespace::{gap_for, saturate, Gap, Whitespace};

verus! {

/// What node `p` adds to the indent of a block whose first token is `own`,
/// on a calm tree: its resolved indent where it is an anchor.
pub open spec fn plain_part(
    blocks: Seq<Block>,
    records: Seq<Whitespace>,
    tokens: Seq<usize>,
    anchors: Seq<Pattern>,
    own: int,
    p: int,
) -> nat {
    let t = anchor(blocks, p);
    if matches_any(blocks, anchors, p) && t >= 0 && t != own {
        lead_of(records, tokens, blocks[t].ordinal as int).indent() as nat
    } else {
        0
    }
}

/// What the nodes above block `i` add to the indent of a block whose first
/// token is `own`, on a calm tree.
pub open spec fn plain_sum(
    blocks: Seq<Block>,
    records: Seq<Whitespace>,
    tokens: Seq<usize>,
    anchors: Seq<Pattern>,
    own: int,
    i: int,
) -> nat
    decreases i,
{
    if i <= 0 || i >= blocks.len() || blocks[i].parent >= i {
        0
    } else {
        plain_part(blocks, records, tokens, anchors, own, blocks[i].parent as int) + plain_sum(
            blocks,
            records,
            tokens,
            anchors,
            own,
            blocks[i].parent as int,
        )
    }
}

/// The indent that a rule gives block `i` on a calm tree.
pub open spec fn plain_width(
    blocks: Seq<Block>,
    records: Seq<Whitespace>,
    tokens: Seq<usize>,
    rule: IndentRule,
    unit: u32,
    i: int,
) -> u32 {
    saturate(
        unit as nat + plain_sum(blocks, records, tokens, rule.anchors@, anchor(blocks, i), i),
    )
}

/// The records after a rule was applied to block `i` on a calm tree: where
/// the gap in front of the first token of the block holds a line break, it
/// gets the indent of the rule.
pub open spec fn plain_indented(
    blocks: Seq<Block>,
    records: Seq<Whitespace>,
    tokens: Seq<usize>,
    rule: IndentRule,
    unit: u32,
    i: int,
) -> Seq<Whitespace> {
    let t = anchor(blocks, i);
    if t >= 0 && lead_of(records, tokens, blocks[t].ordinal as int).newline {
        let width = plain_width(blocks, records, tokens, rule, unit, i);
        if lead_of(records, tokens, blocks[t].ordinal as int).spaces == width {
            records
        } else {
            records.update(t, records[t].with_lead(Gap { newline: true, spaces: width }))
        }
    } else {
        records
    }
}

/// The records after block `i` had its turn in the indent pass on a calm
/// tree.
pub open spec fn plain_step(
    blocks: Seq<Block>,
    records: Seq<Whitespace>,
    tokens: Seq<usize>,
    rules: Seq<IndentRule>,
    unit: u32,
    i: int,
) -> Seq<Whitespace> {
    let first = first_indent(blocks, rules, i, 0);
    if first < rules.len() {
        plain_indented(blocks, records, tokens, rules[first], unit, i)
    } else {
        records
    }
}

/// The records after the blocks `1..n` had their turn in the indent pass on
/// a calm tree.
pub open spec fn plain_upto(
    blocks: Seq<Block>,
    records: Seq<Whitespace>,
    tokens: Seq<usize>,
    rules: Seq<IndentRule>,
    unit: u32,
    n: int,
) -> Seq<Whitespace>
    decreases n,
{
    if n <= 1 {
        records
    } else {
        plain_step(
            blocks,
            plain_upto(blocks, records, tokens, rules, unit, n - 1),
            tokens,
            rules,
            unit,
            n - 1,
        )
    }
}


/// What a spacing value makes of a gap; without a value the gap stays.
pub open spec fn settled(value: Option<SpaceValue>, gap: Gap) -> Gap {
    match value {
        Some(v) => match gap_for(v, gap.newline) {
            Some(g) => g,
            None => gap,
        },
        None => gap,
    }
}

/// The spacing value that decides the gap in front of the `q`-th token: that
/// of the token's own rule for it, or else that of the rule of the token
/// before for the gap behind it.
pub open spec fn edge_value(
    blocks: Seq<Block>,
    tokens: Seq<usize>,
    rules: Seq<SpacingRule>,
    q: int,
) -> Option<SpaceValue> {
    if q < 1 {
        None
    } else if lead_rule(blocks, tokens, rules, q) < rules.len() {
        Some(rules[lead_rule(blocks, tokens, rules, q)].space.value)
    } else if trail_rule(blocks, tokens, rules, q - 1) < rules.len() {
        Some(rules[trail_rule(blocks, tokens, rules, q - 1)].space.value)
    } else {
        None
    }
}

/// No rule has decided a gap of the `q`-th token yet.
pub open spec fn undecided(records: Seq<Whitespace>, tokens: Seq<usize>, q: int) -> bool {
    records[tokens[q] as int].fixed == (false, false)
}

/// The search for a spacing rule ends at a rule or behind the last.
pub proof fn lemma_first_spacing_range(
    blocks: Seq<Block>,
    rules: Seq<SpacingRule>,
    i: int,
    leading: bool,
    from: int,
)
    requires
        0 <= from,
    ensures
        from <= first_spacing(blocks, rules, i, leading, from) || rules.len()
            == first_spacing(blocks, rules, i, leading, from),
        first_spacing(blocks, rules, i, leading, from) <= rules.len(),
    decreases rules.len() - from,
{
    if from < rules.len() {
        lemma_first_spacing_range(blocks, rules, i, leading, from + 1);
    }
}

/// A value settles a gap once and for all: settling again changes nothing,
/// and whether the settled gap holds a line break depends only on whether
/// the gap did.
pub proof fn lemma_settled_twice(value: Option<SpaceValue>, gap: Gap, other: Gap)
    ensures
        settled(value, settled(value, gap)) == settled(value, gap),
        other.newline == gap.newline ==> settled(value, other).newline == settled(
            value,
            gap,
        ).newline,
{
}

/// After the spacing pass on undecided records, the gap in front of a token
/// is what the deciding value makes of the gap that the token's record
/// describes.
pub proof fn lemma_spaced_gap(
    blocks: Seq<Block>,
    records: Seq<Whitespace>,
    tokens: Seq<usize>,
    rules: Seq<SpacingRule>,
    q: int,
)
    requires
        blocks_wf(blocks, tokens),
        records.len() == blocks.len(),
        0 <= q < tokens.len(),
        forall|p: int| 0 <= p < tokens.len() ==> #[trigger] undecided(records, tokens, p),
    ensures
        lead_of(spacing_result(blocks, records, tokens, rules), tokens, q) == settled(
            edge_value(blocks, tokens, rules, q),
            records[tokens[q] as int].lead_gap(),
        ),
{
    let result = spacing_result(blocks, records, tokens, rules);
    assert(token_ok(blocks, tokens, q));
    assert(undecided(records, tokens, q));
    lemma_first_spacing_range(blocks, rules, tokens[q] as int, true, 0);
    lemma_first_spacing_range(blocks, rules, tokens[q] as int, false, 0);
    assert(result[tokens[q] as int] == spaced(blocks, records, tokens, rules, q));
    if q >= 1 {
        assert(token_ok(blocks, tokens, q - 1));
        assert(undecided(records, tokens, q - 1));
        lemma_first_spacing_range(blocks, rules, tokens[q - 1] as int, true, 0);
        lemma_first_spacing_range(blocks, rules, tokens[q - 1] as int, false, 0);
        assert(result[tokens[q - 1] as int] == spaced(blocks, records, tokens, rules, q - 1));
    }
    if q + 1 < tokens.len() {
        lemma_first_spacing_range(blocks, rules, tokens[q + 1] as int, true, 0);
    }
}

/// Block `c` is plain_indented when its turn comes on `records`: a rule matches
/// it, it has a first token, and the gap in front of that token holds a line
/// break.
pub open spec fn writes(
    blocks: Seq<Block>,
    records: Seq<Whitespace>,
    tokens: Seq<usize>,
    rules: Seq<IndentRule>,
    c: int,
) -> bool {
    let t = anchor(blocks, c);
    &&& first_indent(blocks, rules, c, 0) < rules.len()
    &&& t >= 0
    &&& lead_of(records, tokens, blocks[t].ordinal as int).newline
}

/// The search for an indent rule ends at a rule or behind the last.
pub proof fn lemma_first_indent_range(blocks: Seq<Block>, rules: Seq<IndentRule>, i: int, from: int)
    requires
        0 <= from,
    ensures
        0 <= first_indent(blocks, rules, i, from) <= rules.len(),
    decreases rules.len() - from,
{
    if from < rules.len() {
        lemma_first_indent_range(blocks, rules, i, from + 1);
    }
}

/// The turn of one block in the indent pass rewrites at most the gap in
/// front of the block's first token: that gap gets the indent of the rule,
/// every other gap stays, and no gap gains or loses its line break.
pub proof fn lemma_step_gap(
    blocks: Seq<Block>,
    records: Seq<Whitespace>,
    tokens: Seq<usize>,
    rules: Seq<IndentRule>,
    unit: u32,
    c: int,
    q: int,
)
    requires
        blocks_wf(blocks, tokens),
        records.len() == blocks.len(),
        0 <= c < blocks.len(),
        0 <= q < tokens.len(),
    ensures
        ({
            let next = plain_step(blocks, records, tokens, rules, unit, c);
            let hit = writes(blocks, records, tokens, rules, c) && tokens[q] == anchor(blocks, c);
            &&& next.len() == records.len()
            &&& lead_of(next, tokens, q).newline == lead_of(records, tokens, q).newline
            &&& !hit ==> lead_of(next, tokens, q) == lead_of(records, tokens, q)
            &&& hit ==> lead_of(next, tokens, q) == (Gap {
                newline: true,
                spaces: plain_width(
                    blocks,
                    records,
                    tokens,
                    rules[first_indent(blocks, rules, c, 0)],
                    unit,
                    c,
                ),
            })
        }),
{
    lemma_anchor_range(blocks, c);
    lemma_first_indent_range(blocks, rules, c, 0);
    assert(token_ok(blocks, tokens, q));
    if q >= 1 {
        assert(token_ok(blocks, tokens, q - 1));
    }
    let t = anchor(blocks, c);
    if t >= 0 {
        assert(block_ok(blocks, tokens, t));
    }
}

/// Going down into first children from `p` passes `c` on the way to the
/// first token: then `c` has that same first token.
pub proof fn lemma_anchor_chain(blocks: Seq<Block>, p: int, c: int)
    requires
        0 <= p <= c < blocks.len(),
        c <= anchor(blocks, p),
    ensures
        anchor(blocks, c) == anchor(blocks, p),
    decreases c - p,
{
    if p < c {
        lemma_anchor_range(blocks, p);
        lemma_anchor_chain(blocks, p + 1, c);
    }
}

/// Two lists of records that agree on the gaps in front of all tokens
/// before block `c` give the nodes above `i`, a block up to `c`, the same
/// part in the indent of `c`.
pub proof fn lemma_width_agrees(
    blocks: Seq<Block>,
    one: Seq<Whitespace>,
    two: Seq<Whitespace>,
    tokens: Seq<usize>,
    anchors: Seq<Pattern>,
    c: int,
    i: int,
)
    requires
        blocks_wf(blocks, tokens),
        0 <= i <= c < blocks.len(),
        forall|q: int|
            0 <= q < tokens.len() && tokens[q] < c ==> #[trigger] lead_of(one, tokens, q) == lead_of(
                two,
                tokens,
                q,
            ),
    ensures
        plain_sum(blocks, one, tokens, anchors, anchor(blocks, c), i)
            == plain_sum(blocks, two, tokens, anchors, anchor(blocks, c), i),
    decreases i,
{
    if i > 0 {
        assert(block_ok(blocks, tokens, i));
        let p = blocks[i].parent as int;
        lemma_width_agrees(blocks, one, two, tokens, anchors, c, p);
        let t = anchor(blocks, p);
        lemma_anchor_range(blocks, p);
        if t >= 0 && t != anchor(blocks, c) {
            if t >= c {
                lemma_anchor_chain(blocks, p, c);
            }
            assert(block_ok(blocks, tokens, t));
            let q = blocks[t].ordinal as int;
            assert(tokens[q] == t);
            assert(lead_of(one, tokens, q) == lead_of(two, tokens, q));
        }
    }
}

/// The indent pass never gives a gap a line break nor takes one away, and
/// it keeps the number of records.
pub proof fn lemma_indent_keeps_newline(
    blocks: Seq<Block>,
    records: Seq<Whitespace>,
    tokens: Seq<usize>,
    rules: Seq<IndentRule>,
    unit: u32,
    n: int,
    q: int,
)
    requires
        blocks_wf(blocks, tokens),
        records.len() == blocks.len(),
        n <= blocks.len(),
        0 <= q < tokens.len(),
    ensures
        plain_upto(blocks, records, tokens, rules, unit, n).len() == records.len(),
        lead_of(plain_upto(blocks, records, tokens, rules, unit, n), tokens, q).newline == lead_of(
            records,
            tokens,
            q,
        ).newline,
    decreases n,
{
    if n > 1 {
        lemma_indent_keeps_newline(blocks, records, tokens, rules, unit, n - 1, q);
        lemma_step_gap(
            blocks,
            plain_upto(blocks, records, tokens, rules, unit, n - 1),
            tokens,
            rules,
            unit,
            n - 1,
            q,
        );
    }
}

/// Once the turn of a token itself has passed, the gap in front of it is
/// final: the turns of the blocks behind it leave it alone.
pub proof fn lemma_final_after(
    blocks: Seq<Block>,
    records: Seq<Whitespace>,
    tokens: Seq<usize>,
    rules: Seq<IndentRule>,
    unit: u32,
    b: int,
    n: int,
    q: int,
)
    requires
        blocks_wf(blocks, tokens),
        records.len() == blocks.len(),
        0 <= q < tokens.len(),
        tokens[q] < b <= n <= blocks.len(),
    ensures
        lead_of(plain_upto(blocks, records, tokens, rules, unit, n), tokens, q) == lead_of(
            plain_upto(blocks, records, tokens, rules, unit, b),
            tokens,
            q,
        ),
    decreases n,
{
    if n > b {
        lemma_final_after(blocks, records, tokens, rules, unit, b, n - 1, q);
        lemma_indent_keeps_newline(blocks, records, tokens, rules, unit, n - 1, q);
        lemma_anchor_range(blocks, n - 1);
        lemma_step_gap(
            blocks,
            plain_upto(blocks, records, tokens, rules, unit, n - 1),
            tokens,
            rules,
            unit,
            n - 1,
            q,
        );
    }
}

/// Some block before `b` whose first token is the `q`-th token is matched
/// by an indent rule, and that token starts a line.
pub open spec fn written(
    blocks: Seq<Block>,
    tokens: Seq<usize>,
    rules: Seq<IndentRule>,
    starts_line: bool,
    b: int,
    q: int,
) -> bool
    decreases b,
{
    if b <= 1 {
        false
    } else {
        written(blocks, tokens, rules, starts_line, b - 1, q) || (starts_line && anchor(
            blocks,
            b - 1,
        ) == tokens[q] && first_indent(blocks, rules, b - 1, 0) < rules.len())
    }
}

/// Where two runs of the indent pass stand for the gap in front of the
/// `q`-th token when the blocks before `b` had their turn: once the gap was
/// given an indent, the runs agree on it; until then each has what it began
/// with.
pub open spec fn agrees(
    blocks: Seq<Block>,
    tokens: Seq<usize>,
    rules: Seq<IndentRule>,
    unit: u32,
    first: Seq<Whitespace>,
    second: Seq<Whitespace>,
    b: int,
    q: int,
) -> bool {
    let one = lead_of(plain_upto(blocks, first, tokens, rules, unit, b), tokens, q);
    let two = lead_of(plain_upto(blocks, second, tokens, rules, unit, b), tokens, q);
    if written(blocks, tokens, rules, lead_of(first, tokens, q).newline, b, q) {
        one == two
    } else {
        one == lead_of(first, tokens, q) && two == lead_of(second, tokens, q)
    }
}

/// The second run begins where the first one ended: in front of the `q`-th
/// token the first run began with what a spacing value made of some gap,
/// and the second begins with what the same value makes of the gap that the
/// first run ended with.
pub open spec fn resumes(
    blocks: Seq<Block>,
    tokens: Seq<usize>,
    rules: Seq<IndentRule>,
    unit: u32,
    first: Seq<Whitespace>,
    second: Seq<Whitespace>,
    values: Seq<Option<SpaceValue>>,
    gaps: Seq<Gap>,
    q: int,
) -> bool {
    &&& lead_of(first, tokens, q) == settled(values[q], gaps[q])
    &&& lead_of(second, tokens, q) == settled(
        values[q],
        lead_of(plain_upto(blocks, first, tokens, rules, unit, blocks.len() as int), tokens, q),
    )
}

/// The two runs begin with a line break in front of the same tokens.
pub proof fn lemma_same_lines(
    blocks: Seq<Block>,
    tokens: Seq<usize>,
    rules: Seq<IndentRule>,
    unit: u32,
    first: Seq<Whitespace>,
    second: Seq<Whitespace>,
    values: Seq<Option<SpaceValue>>,
    gaps: Seq<Gap>,
    q: int,
)
    requires
        blocks_wf(blocks, tokens),
        first.len() == blocks.len(),
        0 <= q < tokens.len(),
        resumes(blocks, tokens, rules, unit, first, second, values, gaps, q),
    ensures
        lead_of(second, tokens, q).newline == lead_of(first, tokens, q).newline,
{
    let last = lead_of(plain_upto(blocks, first, tokens, rules, unit, blocks.len() as int), tokens, q);
    lemma_indent_keeps_newline(blocks, first, tokens, rules, unit, blocks.len() as int, q);
    lemma_settled_twice(values[q], gaps[q], gaps[q]);
    lemma_settled_twice(values[q], lead_of(first, tokens, q), last);
}

/// Once the turn of a token itself has passed in both runs, they agree on
/// the gap in front of it.
pub proof fn lemma_complete_agree(
    blocks: Seq<Block>,
    tokens: Seq<usize>,
    rules: Seq<IndentRule>,
    unit: u32,
    first: Seq<Whitespace>,
    second: Seq<Whitespace>,
    values: Seq<Option<SpaceValue>>,
    gaps: Seq<Gap>,
    b: int,
    q: int,
)
    requires
        blocks_wf(blocks, tokens),
        first.len() == blocks.len(),
        second.len() == blocks.len(),
        0 <= q < tokens.len(),
        tokens[q] < b <= blocks.len(),
        agrees(blocks, tokens, rules, unit, first, second, b, q),
        resumes(blocks, tokens, rules, unit, first, second, values, gaps, q),
    ensures
        lead_of(plain_upto(blocks, first, tokens, rules, unit, b), tokens, q) == lead_of(
            plain_upto(blocks, second, tokens, rules, unit, b),
            tokens,
            q,
        ),
{
    if !written(blocks, tokens, rules, lead_of(first, tokens, q).newline, b, q) {
        lemma_final_after(blocks, first, tokens, rules, unit, b, blocks.len() as int, q);
        lemma_settled_twice(values[q], gaps[q], gaps[q]);
    }
}

/// Two runs of the indent pass, the second of which begins where the first
/// one ended, stand alike at every turn.
pub proof fn lemma_runs_agree(
    blocks: Seq<Block>,
    tokens: Seq<usize>,
    rules: Seq<IndentRule>,
    unit: u32,
    first: Seq<Whitespace>,
    second: Seq<Whitespace>,
    values: Seq<Option<SpaceValue>>,
    gaps: Seq<Gap>,
    b: int,
)
    requires
        blocks_wf(blocks, tokens),
        first.len() == blocks.len(),
        second.len() == blocks.len(),
        1 <= b <= blocks.len(),
        forall|q: int|
            0 <= q < tokens.len() ==> #[trigger] resumes(
                blocks,
                tokens,
                rules,
                unit,
                first,
                second,
                values,
                gaps,
                q,
            ),
    ensures
        forall|q: int|
            0 <= q < tokens.len() ==> #[trigger] agrees(
                blocks,
                tokens,
                rules,
                unit,
                first,
                second,
                b,
                q,
            ),
    decreases b,
{
    if b > 1 {
        let c = b - 1;
        lemma_runs_agree(blocks, tokens, rules, unit, first, second, values, gaps, c);
        let one = plain_upto(blocks, first, tokens, rules, unit, c);
        let two = plain_upto(blocks, second, tokens, rules, unit, c);
        let t = anchor(blocks, c);
        let rule = first_indent(blocks, rules, c, 0);
        lemma_anchor_range(blocks, c);
        lemma_first_indent_range(blocks, rules, c, 0);
        assert forall|q: int| 0 <= q < tokens.len() && tokens[q] < c implies #[trigger] lead_of(
            one,
            tokens,
            q,
        ) == lead_of(two, tokens, q) by {
            assert(agrees(blocks, tokens, rules, unit, first, second, c, q));
            assert(resumes(blocks, tokens, rules, unit, first, second, values, gaps, q));
            lemma_complete_agree(blocks, tokens, rules, unit, first, second, values, gaps, c, q);
        }
        if rule < rules.len() {
            lemma_width_agrees(blocks, one, two, tokens, rules[rule].anchors@, c, c);
        }
        if t >= 0 {
            assert(block_ok(blocks, tokens, t));
            let own = blocks[t].ordinal as int;
            assert(resumes(blocks, tokens, rules, unit, first, second, values, gaps, own));
            lemma_same_lines(blocks, tokens, rules, unit, first, second, values, gaps, own);
            lemma_indent_keeps_newline(blocks, first, tokens, rules, unit, c, own);
            lemma_indent_keeps_newline(blocks, second, tokens, rules, unit, c, own);
        }
        assert forall|q: int| 0 <= q < tokens.len() implies #[trigger] agrees(
            blocks,
            tokens,
            rules,
            unit,
            first,
            second,
            b,
            q,
        ) by {
            assert(agrees(blocks, tokens, rules, unit, first, second, c, q));
            assert(token_ok(blocks, tokens, q));
            lemma_indent_keeps_newline(blocks, first, tokens, rules, unit, c, q);
            lemma_indent_keeps_newline(blocks, second, tokens, rules, unit, c, q);
            lemma_step_gap(blocks, one, tokens, rules, unit, c, q);
            lemma_step_gap(blocks, two, tokens, rules, unit, c, q);
        }
    }
}

/// Two runs of the indent pass, the second of which begins where the first
/// one ended, end with the same gap in front of every token.
pub proof fn lemma_runs_end_alike(
    blocks: Seq<Block>,
    tokens: Seq<usize>,
    rules: Seq<IndentRule>,
    unit: u32,
    first: Seq<Whitespace>,
    second: Seq<Whitespace>,
    values: Seq<Option<SpaceValue>>,
    gaps: Seq<Gap>,
    q: int,
)
    requires
        blocks_wf(blocks, tokens),
        first.len() == blocks.len(),
        second.len() == blocks.len(),
        0 <= q < tokens.len(),
        forall|p: int|
            0 <= p < tokens.len() ==> #[trigger] resumes(
                blocks,
                tokens,
                rules,
                unit,
                first,
                second,
                values,
                gaps,
                p,
            ),
    ensures
        lead_of(plain_upto(blocks, first, tokens, rules, unit, blocks.len() as int), tokens, q)
            == lead_of(
            plain_upto(blocks, second, tokens, rules, unit, blocks.len() as int),
            tokens,
            q,
        ),
{
    let n = blocks.len() as int;
    lemma_runs_agree(blocks, tokens, rules, unit, first, second, values, gaps, n);
    assert(agrees(blocks, tokens, rules, unit, first, second, n, q));
    assert(resumes(blocks, tokens, rules, unit, first, second, values, gaps, q));
    assert(token_ok(blocks, tokens, q));
    lemma_complete_agree(blocks, tokens, rules, unit, first, second, values, gaps, n, q);
}

/// Two lists of records that give every token the same gap in front of it,
/// over trees whose tokens have the same texts, give the same text.
pub proof fn lemma_rendered_alike(
    elems: Seq<SyntaxElement>,
    elements: Seq<usize>,
    records: Seq<Whitespace>,
    elems2: Seq<SyntaxElement>,
    elements2: Seq<usize>,
    records2: Seq<Whitespace>,
    tokens: Seq<usize>,
    q: int,
)
    requires
        0 <= q <= tokens.len(),
        forall|p: int|
            0 <= p < tokens.len() ==> #[trigger] token_text(elems2, elements2, tokens, p)
                == token_text(elems, elements, tokens, p),
        forall|p: int|
            0 <= p < tokens.len() ==> #[trigger] lead_of(records2, tokens, p) == lead_of(
                records,
                tokens,
                p,
            ),
    ensures
        rendered(elems2, elements2, records2, tokens, q) == rendered(
            elems,
            elements,
            records,
            tokens,
            q,
        ),
    decreases q,
{
    if q > 0 {
        lemma_rendered_alike(elems, elements, records, elems2, elements2, records2, tokens, q - 1);
        assert(token_text(elems2, elements2, tokens, q - 1) == token_text(
            elems,
            elements,
            tokens,
            q - 1,
        ));
        assert(lead_of(records2, tokens, q - 1) == lead_of(records, tokens, q - 1));
    }
}

/// The tokens of a tree of blocks are given by its blocks.
pub proof fn lemma_tokens_of_blocks(blocks: Seq<Block>, tokens: Seq<usize>, tokens2: Seq<usize>)
    requires
        blocks_wf(blocks, tokens),
        blocks_wf(blocks, tokens2),
    ensures
        tokens2 == tokens,
{
    assert forall|q: int| 0 <= q < tokens.len() implies tokens2[q] == tokens[q] by {
        assert(token_ok(blocks, tokens, q));
        assert(block_ok(blocks, tokens2, tokens[q] as int));
    }
    assert(tokens2 =~= tokens);
}

/// Every anchor above block `i` has a first token, and it is not the token
/// `own`.
pub open spec fn clear_above(blocks: Seq<Block>, anchors: Seq<Pattern>, own: int, i: int) -> bool
    decreases i,
{
    if i <= 0 || i >= blocks.len() || blocks[i].parent >= i {
        true
    } else {
        let p = blocks[i].parent as int;
        &&& matches_any(blocks, anchors, p) ==> anchor(blocks, p) >= 0 && anchor(blocks, p) != own
        &&& clear_above(blocks, anchors, own, p)
    }
}

/// The indent pass is calm at block `b`: where an indent rule matches the
/// block, the block is not the root and has a first token; its record says
/// that it starts with a line break exactly where the gap in front of that
/// token holds one, and then the record of the token says so too; and no
/// anchor of the rule above the block begins with that token.
pub open spec fn calm_at(
    blocks: Seq<Block>,
    records: Seq<Whitespace>,
    tokens: Seq<usize>,
    rules: Seq<IndentRule>,
    b: int,
) -> bool {
    let first = first_indent(blocks, rules, b, 0);
    let t = anchor(blocks, b);
    let gap = lead_of(records, tokens, blocks[t].ordinal as int);
    first < rules.len() ==> {
        &&& b >= 1
        &&& t >= 0
        &&& records[b].starts_with_lf == gap.newline
        &&& gap.newline ==> records[t].new_line.0 && records[t].starts_with_lf
        &&& clear_above(blocks, rules[first].anchors@, t, b)
    }
}

/// The indent pass is calm at every block.
pub open spec fn calm(
    blocks: Seq<Block>,
    records: Seq<Whitespace>,
    tokens: Seq<usize>,
    rules: Seq<IndentRule>,
) -> bool {
    forall|b: int| 0 <= b < blocks.len() ==> #[trigger] calm_at(blocks, records, tokens, rules, b)
}

/// Where no anchor above a block begins with the first token of the block,
/// leaving such anchors out of the indent changes nothing.
pub proof fn lemma_calm_sum(
    blocks: Seq<Block>,
    records: Seq<Whitespace>,
    tokens: Seq<usize>,
    anchors: Seq<Pattern>,
    own: int,
    i: int,
)
    requires
        clear_above(blocks, anchors, own, i),
    ensures
        anchor_sum(blocks, records, tokens, anchors, i) == plain_sum(
            blocks,
            records,
            tokens,
            anchors,
            own,
            i,
        ),
    decreases i,
{
    if !(i <= 0 || i >= blocks.len() || blocks[i].parent >= i) {
        let p = blocks[i].parent as int;
        lemma_calm_sum(blocks, records, tokens, anchors, own, p);
        assert(contribution(blocks, records, tokens, anchors, p) == plain_part(
            blocks,
            records,
            tokens,
            anchors,
            own,
            p,
        ));
    }
}

/// On a calm tree the turn of a block in the indent pass is the turn that
/// the lemmas of this file follow, and it leaves the tree calm.
pub proof fn lemma_calm_step(
    blocks: Seq<Block>,
    records: Seq<Whitespace>,
    tokens: Seq<usize>,
    rules: Seq<IndentRule>,
    unit: u32,
    c: int,
)
    requires
        blocks_wf(blocks, tokens),
        records.len() == blocks.len(),
        0 <= c < blocks.len(),
        calm(blocks, records, tokens, rules),
    ensures
        c >= 1 ==> indent_step(blocks, records, tokens, rules, unit, c) == plain_step(
            blocks,
            records,
            tokens,
            rules,
            unit,
            c,
        ),
        c == 0 ==> indent_step(blocks, records, tokens, rules, unit, c) == records,
        indent_step(blocks, records, tokens, rules, unit, c).len() == records.len(),
        calm(blocks, indent_step(blocks, records, tokens, rules, unit, c), tokens, rules),
{
    let next = indent_step(blocks, records, tokens, rules, unit, c);
    let first = first_indent(blocks, rules, c, 0);
    lemma_first_indent_range(blocks, rules, c, 0);
    lemma_anchor_range(blocks, c);
    assert(calm_at(blocks, records, tokens, rules, c));
    if first < rules.len() {
        let t = anchor(blocks, c);
        assert(block_ok(blocks, tokens, t));
        lemma_calm_sum(blocks, records, tokens, rules[first].anchors@, t, c);
        let width = indent_width(blocks, records, tokens, rules[first], unit, c);
        assert(width == plain_width(blocks, records, tokens, rules[first], unit, c));
        assert(target(blocks, c) == t);
        if lead_of(records, tokens, blocks[t].ordinal as int).newline {
            assert(records[t].with_indent(width) == records[t].with_lead(
                Gap { newline: true, spaces: width },
            ));
        }
        assert(next == plain_step(blocks, records, tokens, rules, unit, c));
    }
    assert forall|b: int| 0 <= b < blocks.len() implies #[trigger] calm_at(
        blocks,
        next,
        tokens,
        rules,
        b,
    ) by {
        assert(calm_at(blocks, records, tokens, rules, b));
        lemma_anchor_range(blocks, b);
        let t = anchor(blocks, b);
        if first_indent(blocks, rules, b, 0) < rules.len() && c >= 1 {
            assert(block_ok(blocks, tokens, t));
            lemma_step_gap(blocks, records, tokens, rules, unit, c, blocks[t].ordinal as int);
        }
    }
}

/// On a calm tree the indent pass is the pass that the lemmas of this file
/// follow, and it leaves the tree calm.
pub proof fn lemma_calm_upto(
    blocks: Seq<Block>,
    records: Seq<Whitespace>,
    tokens: Seq<usize>,
    rules: Seq<IndentRule>,
    unit: u32,
    n: int,
)
    requires
        blocks_wf(blocks, tokens),
        records.len() == blocks.len(),
        0 <= n <= blocks.len(),
        calm(blocks, records, tokens, rules),
    ensures
        indent_upto(blocks, records, tokens, rules, unit, n) == plain_upto(
            blocks,
            records,
            tokens,
            rules,
            unit,
            n,
        ),
        indent_upto(blocks, records, tokens, rules, unit, n).len() == records.len(),
        calm(blocks, indent_upto(blocks, records, tokens, rules, unit, n), tokens, rules),
    decreases n,
{
    if n > 0 {
        lemma_calm_upto(blocks, records, tokens, rules, unit, n - 1);
        lemma_calm_step(
            blocks,
            indent_upto(blocks, records, tokens, rules, unit, n - 1),
            tokens,
            rules,
            unit,
            n - 1,
        );
    }
}

} // verus!
