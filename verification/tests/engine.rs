use ra_fmt2::dsl::{IndentDsl, IndentRule, SpaceLoc, SpaceValue, SpacingDsl};
use ra_fmt2::edit_tree::EditTree;
use ra_fmt2::engine::{format_pass, index_spacing, saturating_sum, FmtDiff};
use ra_fmt2::error::FormatError;
use ra_fmt2::pattern::Pattern;
use ra_fmt2::syntax::{SyntaxTree, TreeBuilder};
use ra_fmt2::whitespace::Gap;

const FILE: u16 = 0;
const WS: u16 = 1;
const WORD: u16 = 2;
const COMMA: u16 = 3;
const OPEN: u16 = 4;
const CLOSE: u16 = 5;
const BODY: u16 = 6;
const STMT: u16 = 7;
const EXPR: u16 = 8;
const KINDS: u16 = 9;

fn spacing(rules: &[(u16, SpaceLoc, SpaceValue)]) -> SpacingDsl {
    let mut dsl = SpacingDsl::new(KINDS);
    for (kind, loc, value) in rules {
        dsl.rule(Pattern::new(vec![*kind]), *loc, *value).unwrap();
    }
    dsl
}

fn no_indent() -> IndentDsl {
    IndentDsl::new(KINDS, 4)
}

fn run(tree: SyntaxTree, spacing: &SpacingDsl, indent: &IndentDsl) -> String {
    ra_fmt2::engine::format(tree, spacing, indent).unwrap()
}

/// The tokens of `parts`, whitespace where a part is made of blanks and
/// line breaks only, all under the root.
fn flat(parts: &[&str]) -> SyntaxTree {
    let mut b = TreeBuilder::new(FILE);
    for part in parts {
        if part.chars().all(|c| c == ' ' || c == '\n') {
            b.whitespace(WS, part);
        } else if *part == "," {
            b.token(COMMA, part);
        } else if *part == "{" {
            b.token(OPEN, part);
        } else if *part == "}" {
            b.token(CLOSE, part);
        } else {
            b.token(WORD, part);
        }
    }
    b.finish()
}

#[test]
fn rule_of_the_right_token_wins_over_rule_of_the_left_token() {
    let rules = spacing(&[
        (COMMA, SpaceLoc::After, SpaceValue::Single),
        (OPEN, SpaceLoc::Before, SpaceValue::NoSpace),
    ]);
    assert_eq!(run(flat(&["a", ",", "   ", "{", "b"]), &rules, &no_indent()), "a,{b\n");
    let other = spacing(&[
        (OPEN, SpaceLoc::Before, SpaceValue::Single),
        (COMMA, SpaceLoc::After, SpaceValue::Newline),
    ]);
    assert_eq!(run(flat(&["a", ",", "{", "b"]), &other, &no_indent()), "a, {b\n");
}

#[test]
fn first_rule_in_the_table_wins_on_one_side() {
    let rules = spacing(&[
        (COMMA, SpaceLoc::After, SpaceValue::Single),
        (COMMA, SpaceLoc::After, SpaceValue::NoSpace),
        (COMMA, SpaceLoc::Before, SpaceValue::NoSpace),
        (COMMA, SpaceLoc::Around, SpaceValue::Newline),
    ]);
    assert_eq!(run(flat(&["a", "  ", ",", "b"]), &rules, &no_indent()), "a, b\n");
}

#[test]
fn rule_around_a_token_acts_on_both_gaps() {
    let rules = spacing(&[(COMMA, SpaceLoc::Around, SpaceValue::Single)]);
    assert_eq!(run(flat(&["a", ",", "   ", "b"]), &rules, &no_indent()), "a , b\n");
    let none = spacing(&[(COMMA, SpaceLoc::Around, SpaceValue::NoSpace)]);
    assert_eq!(run(flat(&["a", " ", ",", "\n", "b"]), &none, &no_indent()), "a,b\n");
}

#[test]
fn gaps_without_a_rule_stay() {
    let rules = spacing(&[(COMMA, SpaceLoc::After, SpaceValue::Single)]);
    assert_eq!(
        run(flat(&["  ", "a", "   ", "b", "\n  ", "c", ",", "d", "\n\n"]), &rules, &no_indent()),
        "  a   b\n  c, d\n"
    );
}

#[test]
fn first_token_has_no_gap_to_decide() {
    let rules = spacing(&[(WORD, SpaceLoc::Before, SpaceValue::NoSpace)]);
    assert_eq!(run(flat(&["  ", "a", "  ", "b"]), &rules, &no_indent()), "  ab\n");
}

#[test]
fn optional_line_break_is_kept_with_its_indent() {
    let single = spacing(&[(COMMA, SpaceLoc::After, SpaceValue::SingleOrNewline)]);
    assert_eq!(run(flat(&["a", ",", "\n   ", "b"]), &single, &no_indent()), "a,\n   b\n");
    assert_eq!(run(flat(&["a", ",", "b"]), &single, &no_indent()), "a, b\n");
    assert_eq!(run(flat(&["a", ",", "    ", "b"]), &single, &no_indent()), "a, b\n");
    let single2 = spacing(&[(COMMA, SpaceLoc::Before, SpaceValue::SingleOptionalNewline)]);
    assert_eq!(run(flat(&["a", "\n", ",", "b"]), &single2, &no_indent()), "a\n,b\n");
    assert_eq!(run(flat(&["a", ",", "b"]), &single2, &no_indent()), "a ,b\n");
    let none = spacing(&[(COMMA, SpaceLoc::After, SpaceValue::NoneOrNewline)]);
    assert_eq!(run(flat(&["a", ",", "\n ", "b"]), &none, &no_indent()), "a,\n b\n");
    assert_eq!(run(flat(&["a", ",", "  ", "b"]), &none, &no_indent()), "a,b\n");
    let none2 = spacing(&[(COMMA, SpaceLoc::After, SpaceValue::NoneOptionalNewline)]);
    assert_eq!(run(flat(&["a", ",", "  ", "b"]), &none2, &no_indent()), "a,b\n");
    assert_eq!(run(flat(&["a", ",", " \n", "b"]), &none2, &no_indent()), "a,\nb\n");
}

#[test]
fn line_break_rule_drops_the_blanks() {
    let rules = spacing(&[(OPEN, SpaceLoc::After, SpaceValue::Newline)]);
    assert_eq!(run(flat(&["{", "   ", "a"]), &rules, &no_indent()), "{\na\n");
    assert_eq!(run(flat(&["{", "\n     ", "a"]), &rules, &no_indent()), "{\na\n");
    let before = spacing(&[(CLOSE, SpaceLoc::Before, SpaceValue::Newline)]);
    assert_eq!(run(flat(&["a", " ", "}"]), &before, &no_indent()), "a\n}\n");
}

/// `{` statements `}` with a line break after `{` iff `broken`.
fn body(lines: &[&str], broken: bool) -> SyntaxTree {
    let mut b = TreeBuilder::new(FILE);
    b.start_node(BODY);
    b.token(OPEN, "{");
    for line in lines {
        if broken {
            b.whitespace(WS, "\n");
        }
        b.start_node(STMT);
        b.start_node(EXPR);
        b.token(WORD, line);
        b.finish_node();
        b.finish_node();
    }
    if broken {
        b.whitespace(WS, "\n");
    }
    b.token(CLOSE, "}");
    b.finish_node();
    b.finish()
}

fn stmt_indent(unit: u32) -> IndentDsl {
    let mut dsl = IndentDsl::new(KINDS, unit);
    dsl.rule(Pattern::new(vec![STMT]), vec![Pattern::new(vec![BODY])]).unwrap();
    dsl
}

#[test]
fn block_is_indented_where_its_record_starts_with_a_line_break() {
    let rules = spacing(&[
        (OPEN, SpaceLoc::After, SpaceValue::Newline),
        (CLOSE, SpaceLoc::Before, SpaceValue::Newline),
    ]);
    // the statement stands on a line of its own
    assert_eq!(run(body(&["a"], true), &rules, &stmt_indent(2)), "{\n  a\n}\n");
    // the statement stands behind `{`: the rule of `{` breaks the line, but
    // the record of the statement does not start with a line break
    assert_eq!(run(body(&["a"], false), &rules, &stmt_indent(2)), "{\na\n}\n");
}

fn word_indent(unit: u32) -> IndentDsl {
    let mut dsl = IndentDsl::new(KINDS, unit);
    dsl.rule(Pattern::new(vec![WORD]), vec![Pattern::new(vec![BODY])]).unwrap();
    dsl
}

#[test]
fn block_that_does_not_start_a_line_is_not_indented() {
    assert_eq!(run(body(&["a", "b"], false), &spacing(&[]), &stmt_indent(4)), "{ab}\n");
    // a rule takes the line break in front of the words away
    let single = spacing(&[(WORD, SpaceLoc::Before, SpaceValue::Single)]);
    assert_eq!(run(body(&["a", "b"], true), &single, &word_indent(4)), "{ a b\n}\n");
}

#[test]
fn blanks_and_then_a_line_break_start_no_line() {
    // the whitespace in front of `b` holds a line break but does not start
    // with one
    let tree = flat(&["a", "  \n", "b", "\n  ", "c"]);
    let diff = FmtDiff::new(EditTree::new(tree));
    assert!(!diff.edit_tree.starts_with_lf(2));
    assert!(diff.edit_tree.starts_with_lf(3));
    let diff = diff.indent_diff(&word_indent(4)).unwrap();
    assert_eq!(diff.edit_tree.space_value(2), (2, 2));
    assert!(!diff.edit_tree.starts_with_lf(2));
    assert_eq!(diff.edit_tree.get_whitespace(2).fixed, (false, false));
    assert_eq!(diff.edit_tree.space_value(3), (4, 0));
    assert_eq!(diff.edit_tree.eol_value(3), (true, false));
    assert!(diff.edit_tree.starts_with_lf(3));
    assert_eq!(diff.edit_tree.apply_edits(), "a\nb\n    c\n");
}

#[test]
fn indent_pass_changes_the_blanks_in_front_and_nothing_else() {
    let fresh = EditTree::new(body(&["a", "b"], true));
    let done = FmtDiff::new(EditTree::new(body(&["a", "b"], true)))
        .indent_diff(&stmt_indent(4))
        .unwrap()
        .into_tree();
    for i in 0..fresh.len() {
        assert_eq!(done.eol_value(i), fresh.eol_value(i));
        assert_eq!(done.space_value(i).1, fresh.space_value(i).1);
        assert_eq!(done.starts_with_lf(i), fresh.starts_with_lf(i));
    }
    let fronts: Vec<u32> = (0..done.len()).map(|i| done.space_value(i).0).collect();
    // file, body, `{`, statement, expression, `a`, statement, expression, `b`, `}`
    assert_eq!(fronts, vec![0, 0, 0, 0, 0, 4, 0, 0, 4, 0]);
}

#[test]
fn empty_tables_leave_every_record_as_it_was_built() {
    let fresh = EditTree::new(body(&["a", "b"], true));
    let done = format_pass(&spacing(&[]), &no_indent(), body(&["a", "b"], true)).unwrap();
    assert_eq!(done.len(), fresh.len());
    for i in 0..fresh.len() {
        assert_eq!(done.eol_value(i), fresh.eol_value(i));
        assert_eq!(done.space_value(i), fresh.space_value(i));
        assert_eq!(done.starts_with_lf(i), fresh.starts_with_lf(i));
        assert_eq!(done.get_whitespace(i).fixed, (false, false));
    }
    assert_eq!(done.eol_value(0), (false, false));
    assert_eq!(done.apply_edits(), "{\na\nb\n}\n");
}

#[test]
fn block_without_a_rule_keeps_its_indent() {
    let mut b = TreeBuilder::new(FILE);
    b.token(WORD, "a");
    b.whitespace(WS, "\n       ");
    b.start_node(EXPR);
    b.token(WORD, "b");
    b.finish_node();
    assert_eq!(run(b.finish(), &spacing(&[]), &stmt_indent(4)), "a\n       b\n");
}

#[test]
fn rule_for_a_token_indents_the_token_itself() {
    let mut indent = IndentDsl::new(KINDS, 3);
    indent.rule(Pattern::new(vec![CLOSE]), vec![]).unwrap();
    assert_eq!(run(body(&["a"], true), &spacing(&[]), &indent), "{\na\n   }\n");
}

#[test]
fn pattern_with_a_node_above_matches_below_that_node_only() {
    let mut rules = SpacingDsl::new(KINDS);
    rules.rule(Pattern::inside(vec![WORD], vec![STMT]), SpaceLoc::Before, SpaceValue::Single).unwrap();
    let mut b = TreeBuilder::new(FILE);
    b.token(WORD, "a");
    b.token(WORD, "b");
    b.start_node(STMT);
    b.start_node(EXPR);
    b.token(WORD, "c");
    b.finish_node();
    b.token(WORD, "d");
    b.finish_node();
    b.token(WORD, "e");
    assert_eq!(run(b.finish(), &rules, &no_indent()), "ab c de\n");
}

#[test]
fn every_anchor_above_adds_its_indent() {
    // the body and the statement both begin with the word after the line
    // break: the body is an anchor, and its indent counts
    let mut b = TreeBuilder::new(FILE);
    b.token(WORD, "x");
    b.whitespace(WS, "\n  ");
    b.start_node(BODY);
    b.start_node(STMT);
    b.token(WORD, "a");
    b.finish_node();
    b.finish_node();
    assert_eq!(run(b.finish(), &spacing(&[]), &word_indent(4)), "x\n      a\n");
    // two bodies, one in the other, each on a line of its own
    let mut b = TreeBuilder::new(FILE);
    b.whitespace(WS, "\n   ");
    b.start_node(BODY);
    b.token(OPEN, "{");
    b.whitespace(WS, "\n ");
    b.start_node(BODY);
    b.token(OPEN, "{");
    b.whitespace(WS, "\n");
    b.start_node(STMT);
    b.token(WORD, "a");
    b.finish_node();
    b.finish_node();
    b.finish_node();
    let diff = FmtDiff::new(EditTree::new(b.finish()));
    let rule = IndentRule { pattern: Pattern::new(vec![STMT]), anchors: vec![Pattern::new(vec![BODY])] };
    // 4 and the indents 1 and 3 of the two bodies
    assert_eq!(diff.indent_for(&rule, 4, 5), 8);
    assert_eq!(diff.into_tree().apply_edits(), "\n   {\n {\na\n");
}

#[test]
fn indent_is_held_to_what_fits() {
    assert_eq!(saturating_sum(1, 2), 3);
    assert_eq!(saturating_sum(u32::MAX, 0), u32::MAX);
    assert_eq!(saturating_sum(u32::MAX - 1, 1), u32::MAX);
    assert_eq!(saturating_sum(u32::MAX, 1), u32::MAX);
    assert_eq!(saturating_sum(3_000_000_000, 3_000_000_000), u32::MAX);
    // an anchor with indent 6 above a statement
    let mut b = TreeBuilder::new(FILE);
    b.whitespace(WS, "\n      ");
    b.start_node(BODY);
    b.token(OPEN, "{");
    b.whitespace(WS, "\n");
    b.start_node(STMT);
    b.token(WORD, "a");
    b.finish_node();
    b.finish_node();
    let diff = FmtDiff::new(EditTree::new(b.finish()));
    let rule = IndentRule { pattern: Pattern::new(vec![STMT]), anchors: vec![Pattern::new(vec![BODY])] };
    assert_eq!(diff.indent_for(&rule, 4, 3), 10);
    assert_eq!(diff.indent_for(&rule, u32::MAX - 6, 3), u32::MAX);
    assert_eq!(diff.indent_for(&rule, u32::MAX - 5, 3), u32::MAX);
    assert_eq!(diff.indent_for(&rule, u32::MAX, 3), u32::MAX);
    let bare = IndentRule { pattern: Pattern::new(vec![STMT]), anchors: vec![] };
    assert_eq!(diff.indent_for(&bare, 4, 3), 4);
}

#[test]
fn one_edge_is_decided_at_a_time() {
    let rules = spacing(&[
        (COMMA, SpaceLoc::After, SpaceValue::Single),
        (COMMA, SpaceLoc::Before, SpaceValue::NoSpace),
    ]);
    let index = index_spacing(&rules);
    let mut diff = FmtDiff::new(EditTree::new(flat(&["a", "  ", ",", "b"])));
    diff.compute_spacing(&rules, &index, 1);
    assert_eq!(diff.edit_tree.get_whitespace(2).fixed, (true, false));
    assert_eq!(diff.edit_tree.get_whitespace(1).fixed, (false, false));
    assert_eq!(diff.edit_tree.resolved_lead(1), Gap { newline: false, spaces: 0 });
    assert_eq!(diff.edit_tree.resolved_lead(2), Gap { newline: false, spaces: 0 });
    diff.compute_spacing(&rules, &index, 2);
    assert_eq!(diff.edit_tree.get_whitespace(2).fixed, (true, true));
    assert_eq!(diff.edit_tree.get_whitespace(3).fixed, (false, false));
    assert_eq!(diff.edit_tree.resolved_lead(2), Gap { newline: false, spaces: 1 });
    assert_eq!(diff.into_tree().apply_edits(), "a, b\n");
}

#[test]
fn passes_can_be_run_one_by_one() {
    let rules = spacing(&[(OPEN, SpaceLoc::After, SpaceValue::Newline)]);
    let diff = FmtDiff::new(EditTree::new(body(&["a"], true))).spacing_diff(&rules);
    assert_eq!(diff.edit_tree.apply_edits(), "{\na\n}\n");
    assert!(!diff.has_ambiguity(&stmt_indent(4)));
    let diff = diff.indent_diff(&stmt_indent(4)).unwrap();
    assert_eq!(diff.edit_tree.apply_edits(), "{\n    a\n}\n");
}

#[test]
fn ambiguity_is_an_error_of_the_whole_pass() {
    let mut indent = stmt_indent(4);
    indent.rule(Pattern::new(vec![STMT, EXPR]), vec![]).unwrap();
    let diff = FmtDiff::new(EditTree::new(body(&["a"], true)));
    assert!(diff.has_ambiguity(&indent));
    assert_eq!(diff.indent_diff(&indent).err(), Some(FormatError::AmbiguousIndentRule));
    // mid-line blocks count as well
    let out = format_pass(&spacing(&[]), &indent, body(&["a"], false));
    assert_eq!(out.err(), Some(FormatError::AmbiguousIndentRule));
    // two rules that never meet on one block are fine
    let mut apart = stmt_indent(4);
    apart.rule(Pattern::new(vec![EXPR]), vec![]).unwrap();
    assert!(ra_fmt2::engine::format(body(&["a"], true), &spacing(&[]), &apart).is_ok());
}

#[test]
fn empty_input_comes_before_ambiguity() {
    let mut indent = IndentDsl::new(KINDS, 4);
    indent.rule(Pattern::new(vec![BODY]), vec![]).unwrap();
    indent.rule(Pattern::new(vec![BODY]), vec![]).unwrap();
    let mut b = TreeBuilder::new(FILE);
    b.start_node(BODY);
    b.finish_node();
    let out = ra_fmt2::engine::format(b.finish(), &spacing(&[]), &indent);
    assert_eq!(out, Err(FormatError::EmptyInput));
}

#[test]
fn errors_say_what_went_wrong() {
    assert_eq!(FormatError::EmptyInput.message(), "the tree has no tokens");
    assert_eq!(FormatError::AmbiguousIndentRule.message(), "more than one indent rule matched");
    assert_eq!(FormatError::InvalidPattern.message(), "a rule names an unknown kind");
}

fn busy_rules() -> (SpacingDsl, IndentDsl) {
    let rules = spacing(&[
        (OPEN, SpaceLoc::After, SpaceValue::Newline),
        (CLOSE, SpaceLoc::Before, SpaceValue::SingleOrNewline),
        (WORD, SpaceLoc::Before, SpaceValue::NoneOrNewline),
    ]);
    (rules, stmt_indent(4))
}

#[test]
fn same_input_gives_same_output() {
    let (rules, indent) = busy_rules();
    let one = run(body(&["a", "b", "c"], true), &rules, &indent);
    let two = run(body(&["a", "b", "c"], true), &rules, &indent);
    assert_eq!(one, two);
    assert_eq!(one, "{\n    a\n    b\n    c\n}\n");
}

#[test]
fn output_ends_with_exactly_one_line_break() {
    let (rules, indent) = busy_rules();
    for tree in [body(&["a"], false), body(&["a", "b"], true), flat(&["a", "\n\n\n"]), flat(&["a"])] {
        let out = run(tree, &rules, &indent);
        assert!(out.ends_with('\n'));
        assert!(!out.ends_with("\n\n"));
    }
}

#[test]
fn tokens_come_out_as_they_went_in() {
    let (rules, indent) = busy_rules();
    let tree = body(&["a", "b", "c"], true);
    let tokens: String = tree.text().chars().filter(|c| !c.is_whitespace()).collect();
    let out = run(tree, &rules, &indent);
    let kept: String = out.chars().filter(|c| !c.is_whitespace()).collect();
    assert_eq!(kept, tokens);
    assert_eq!(kept, "{abc}");
}

#[test]
fn second_run_on_the_output_gives_the_output() {
    let rules = spacing(&[
        (OPEN, SpaceLoc::After, SpaceValue::Newline),
        (CLOSE, SpaceLoc::Before, SpaceValue::SingleOrNewline),
    ]);
    let indent = stmt_indent(4);
    let out = run(body(&["a", "b"], true), &rules, &indent);
    assert_eq!(out, "{\n    a\n    b\n}\n");
    // the same tree, with the whitespace of the output
    let mut b = TreeBuilder::new(FILE);
    b.start_node(BODY);
    b.token(OPEN, "{");
    for word in ["a", "b"] {
        b.whitespace(WS, "\n    ");
        b.start_node(STMT);
        b.start_node(EXPR);
        b.token(WORD, word);
        b.finish_node();
        b.finish_node();
    }
    b.whitespace(WS, "\n");
    b.token(CLOSE, "}");
    b.finish_node();
    b.whitespace(WS, "\n");
    let again = b.finish();
    assert_eq!(again.text(), out);
    assert_eq!(run(again, &rules, &indent), out);
}

#[test]
fn indent_rules_that_meet_on_the_root_are_refused() {
    let mut indent = IndentDsl::new(KINDS, 4);
    indent.rule(Pattern::new(vec![FILE]), vec![]).unwrap();
    indent.rule(Pattern::new(vec![FILE, STMT]), vec![]).unwrap();
    let diff = FmtDiff::new(EditTree::new(flat(&["a"])));
    assert!(diff.has_ambiguity(&indent));
    assert_eq!(diff.indent_diff(&indent).err(), Some(FormatError::AmbiguousIndentRule));
    let out = format_pass(&spacing(&[]), &indent, flat(&["a"]));
    assert_eq!(out.err(), Some(FormatError::AmbiguousIndentRule));
    let out = ra_fmt2::engine::format(flat(&["a"]), &spacing(&[]), &indent);
    assert_eq!(out, Err(FormatError::AmbiguousIndentRule));
}
