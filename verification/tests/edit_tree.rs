use ra_fmt2::dsl::{Space, SpaceLoc, SpaceValue};
use ra_fmt2::edit_tree::EditTree;
use ra_fmt2::render::{str_from_root, string_from_block};
use ra_fmt2::syntax::{SyntaxTree, TreeBuilder};
use ra_fmt2::whitespace::Gap;

const FILE: u16 = 0;
const STMT: u16 = 1;
const WORD: u16 = 2;
const WS: u16 = 3;
const GROUP: u16 = 4;
const EMPTY: u16 = 5;

/// `a  b\n    c d` with `b` alone in a group and `c d` in a statement.
fn sample() -> SyntaxTree {
    let mut b = TreeBuilder::new(FILE);
    b.token(WORD, "a");
    b.whitespace(WS, "  ");
    b.start_node(GROUP);
    b.token(WORD, "b");
    b.finish_node();
    b.whitespace(WS, "\n    ");
    b.start_node(STMT);
    b.start_node(GROUP);
    b.token(WORD, "c");
    b.finish_node();
    b.whitespace(WS, " ");
    b.token(WORD, "d");
    b.finish_node();
    b.start_node(EMPTY);
    b.finish_node();
    b.finish()
}

#[test]
fn whitespace_gets_no_block() {
    let tree = EditTree::new(sample());
    assert_eq!(tree.len(), 9);
    assert_eq!(tree.elements, vec![0, 1, 3, 4, 6, 7, 8, 10, 11]);
    let kinds: Vec<u16> = tree.blocks.iter().map(|b| b.kind()).collect();
    assert_eq!(kinds, vec![FILE, WORD, GROUP, WORD, STMT, GROUP, WORD, WORD, EMPTY]);
    let leaves: Vec<bool> = tree.blocks.iter().map(|b| b.is_leaf()).collect();
    assert_eq!(leaves, vec![false, true, false, true, false, false, true, true, false]);
    let parents: Vec<usize> = tree.blocks.iter().map(|b| b.parent).collect();
    assert_eq!(parents, vec![0, 0, 0, 2, 0, 4, 5, 4, 0]);
    let ordinals: Vec<usize> = tree.blocks.iter().map(|b| b.ordinal).collect();
    assert_eq!(ordinals, vec![0, 0, 1, 1, 2, 2, 2, 3, 4]);
    assert_eq!(tree.tokens, vec![1, 3, 6, 7]);
    assert_eq!(tree.text(), "a  b\n    c d");
}

#[test]
fn records_say_what_stands_around_a_block() {
    let tree = EditTree::new(sample());
    // the root has nothing around it
    assert_eq!(tree.eol_value(0), (false, false));
    assert_eq!(tree.space_value(0), (0, 0));
    assert!(!tree.starts_with_lf(0));
    // `a`
    assert_eq!(tree.space_value(1), (0, 2));
    assert_eq!(tree.eol_value(1), (false, false));
    // `b`, and the group around it
    assert_eq!(tree.space_value(3), (2, 4));
    assert_eq!(tree.eol_value(3), (false, true));
    assert_eq!(tree.space_value(2), (2, 4));
    assert_eq!(tree.eol_value(2), (false, true));
    // `c` and the statement: the whitespace in front of both
    for i in [4, 6] {
        assert_eq!(tree.eol_value(i).0, true);
        assert_eq!(tree.space_value(i).0, 4);
        assert!(tree.starts_with_lf(i));
    }
    assert_eq!(tree.space_value(6).1, 1);
    assert_eq!(tree.space_value(4).1, 0);
    // the group around `c` is the first child of the statement: nothing
    // stands in front of it under its parent, and one blank behind it
    assert_eq!(tree.eol_value(5), (false, false));
    assert_eq!(tree.space_value(5), (0, 1));
    assert!(!tree.starts_with_lf(5));
    // the empty node at the end has no whitespace next to it
    assert_eq!(tree.space_value(8), (0, 0));
    // `d`
    assert_eq!(tree.space_value(7), (1, 0));
    assert_eq!(tree.get_whitespace(7).fixed, (false, false));
}

#[test]
fn tokens_other_than_whitespace_leave_no_trace_in_a_record() {
    let mut b = TreeBuilder::new(FILE);
    b.token(WORD, "a\n");
    b.token(WORD, "b");
    b.token(WORD, " c");
    let tree = EditTree::new(b.finish());
    assert_eq!(tree.eol_value(2), (false, false));
    assert_eq!(tree.space_value(2), (0, 0));
}

#[test]
fn walks_go_in_the_order_of_the_text() {
    let tree = EditTree::new(sample());
    assert_eq!(tree.walk(), vec![0, 1, 2, 3, 4, 5, 6, 7, 8]);
    assert_eq!(tree.walk_exc_root(), vec![1, 2, 3, 4, 5, 6, 7, 8]);
    assert_eq!(tree.walk_tokens(), vec![1, 3, 6, 7]);
    assert_eq!(tree.walk_nodes(), vec![0, 2, 4, 5, 8]);
    assert_eq!(tree.last_token(), Some(7));
    assert_eq!(tree.root().kind(), FILE);
}

#[test]
fn walks_below_a_block_stay_below_it() {
    let tree = EditTree::new(sample());
    assert_eq!(tree.end_of(0), 9);
    assert_eq!(tree.end_of(4), 8);
    assert_eq!(tree.end_of(5), 7);
    assert_eq!(tree.end_of(6), 7);
    assert_eq!(tree.end_of(8), 9);
    assert_eq!(tree.order_flatten_blocks_inc(4), vec![4, 5, 6, 7]);
    assert_eq!(tree.order_flatten_blocks_exc_curr(4), vec![5, 6, 7]);
    assert_eq!(tree.order_flatten_blocks_tokens(4), vec![6, 7]);
    assert_eq!(tree.order_flatten_blocks_nodes(4), vec![4, 5]);
    assert_eq!(tree.order_flatten_blocks_inc(0), tree.walk());
    assert_eq!(tree.order_flatten_blocks_exc_curr(0), tree.walk_exc_root());
    assert_eq!(tree.order_flatten_blocks_tokens(0), tree.walk_tokens());
    assert_eq!(tree.order_flatten_blocks_nodes(0), tree.walk_nodes());
    assert_eq!(tree.traverse_inc(2), vec![2, 3]);
    assert_eq!(tree.traverse_exc(2), vec![3]);
    assert_eq!(tree.traverse_exc(7), Vec::<usize>::new());
    assert_eq!(tree.order_flatten_blocks_nodes(7), vec![7]);
}

#[test]
fn children_and_ancestors_follow_the_parent_links() {
    let tree = EditTree::new(sample());
    assert_eq!(tree.children(0), vec![1, 2, 4, 8]);
    assert_eq!(tree.children(4), vec![5, 7]);
    assert_eq!(tree.children(6), Vec::<usize>::new());
    assert_eq!(tree.ancestors_nodes(6), vec![5, 4, 0]);
    assert_eq!(tree.ancestors_nodes(1), vec![0]);
    assert_eq!(tree.ancestors_nodes(0), Vec::<usize>::new());
    assert_eq!(tree.kinds_above(6), vec![GROUP, STMT, FILE]);
    assert_eq!(tree.ancestors_tokens(7), vec![7, 5]);
    assert_eq!(tree.ancestors_tokens(8), vec![8, 4, 2, 1]);
    assert_eq!(tree.ancestors_tokens(1), vec![1]);
}

#[test]
fn first_token_is_found_through_first_children() {
    let tree = EditTree::new(sample());
    assert_eq!(tree.anchor_token(0), Some(1));
    assert_eq!(tree.anchor_token(4), Some(6));
    assert_eq!(tree.anchor_token(5), Some(6));
    assert_eq!(tree.anchor_token(6), Some(6));
    assert_eq!(tree.anchor_token(8), None);
}

#[test]
fn indent_is_that_of_the_first_token() {
    let mut tree = EditTree::new(sample());
    assert_eq!(tree.get_indent(4), 4);
    assert_eq!(tree.get_indent(6), 4);
    assert_eq!(tree.get_indent(2), 0);
    assert_eq!(tree.get_indent(8), 0);
    tree.set_indent(6, 8);
    assert_eq!(tree.get_indent(4), 8);
    assert_eq!(tree.resolved_lead(2), Gap { newline: true, spaces: 8 });
    assert_eq!(tree.eol_value(6), (true, false));
    assert!(tree.starts_with_lf(6));
    assert_eq!(tree.space_value(6), (8, 1));
    // the blanks in front change and nothing else: `d` stays on its line
    tree.set_indent(7, 2);
    assert_eq!(tree.resolved_lead(3), Gap { newline: false, spaces: 2 });
    assert_eq!(tree.eol_value(7), (false, false));
    assert_eq!(tree.get_indent(7), 0);
    assert_eq!(tree.apply_edits(), "a  b\n        c  d\n");
}

#[test]
fn untouched_tree_gives_its_text_with_gaps_made_plain() {
    let tree = EditTree::new(sample());
    assert_eq!(tree.apply_edits(), "a  b\n    c d\n");
    assert_eq!(str_from_root(&tree), "a  b\n    c d\n");
    assert_eq!(string_from_block(&tree, 0), "a");
    assert_eq!(string_from_block(&tree, 1), "  b");
    assert_eq!(string_from_block(&tree, 2), "\n    c");
    assert_eq!(string_from_block(&tree, 3), " d");
    assert_eq!(tree.as_str(6), "c");
    assert_eq!(tree.as_str(4), "");
    assert_eq!(tree.to_string(7), "d");
    assert_eq!(tree.to_string(4), "c d");
    assert_eq!(tree.to_string(5), "c");
    assert_eq!(tree.to_string(8), "");
    assert_eq!(tree.to_string(0), "a  b\n    c d");
}

#[test]
fn blank_lines_and_stray_blanks_are_made_plain() {
    let mut b = TreeBuilder::new(FILE);
    b.whitespace(WS, " ");
    b.token(WORD, "a");
    b.whitespace(WS, "  \n");
    b.token(WORD, "b");
    b.whitespace(WS, "\n\n  ");
    b.token(WORD, "c");
    b.whitespace(WS, "\t");
    b.token(WORD, "d");
    b.whitespace(WS, "\n\n");
    let tree = EditTree::new(b.finish());
    assert_eq!(tree.text(), " a  \nb\n\n  c\td\n\n");
    assert_eq!(tree.apply_edits(), " a\nb\n  c d\n");
}

#[test]
fn untouched_tree_of_a_plain_text_gives_the_text_back() {
    // `fn f() {}` and a line break
    let mut b = TreeBuilder::new(FILE);
    b.start_node(STMT);
    b.token(WORD, "fn");
    b.whitespace(WS, " ");
    b.token(WORD, "f");
    b.token(WORD, "(");
    b.token(WORD, ")");
    b.whitespace(WS, " ");
    b.start_node(GROUP);
    b.token(WORD, "{");
    b.token(WORD, "}");
    b.finish_node();
    b.finish_node();
    b.whitespace(WS, "\n");
    let source = b.finish();
    let text = source.text();
    assert_eq!(text, "fn f() {}\n");
    let tree = EditTree::new(source);
    assert_eq!(tree.apply_edits(), text);
    // the tree itself is as it was built
    assert_eq!(tree.eol_value(0), (false, false));
}

#[test]
fn text_ends_with_one_line_break_whatever_stood_there() {
    for tail in ["", " ", "\n", "\n\n\n", "  \n  "] {
        let mut b = TreeBuilder::new(FILE);
        b.token(WORD, "a");
        if !tail.is_empty() {
            b.whitespace(WS, tail);
        }
        assert_eq!(EditTree::new(b.finish()).apply_edits(), "a\n");
    }
}

#[test]
fn block_covers_a_range_of_the_text() {
    let tree = EditTree::new(sample());
    // `a  b\n    c d`
    assert_eq!(tree.text_range(0), Some((0, 12)));
    assert_eq!(tree.text_range(1), Some((0, 1)));
    assert_eq!(tree.text_range(2), Some((3, 4)));
    assert_eq!(tree.text_range(3), Some((3, 4)));
    assert_eq!(tree.text_range(4), Some((9, 12)));
    assert_eq!(tree.text_range(6), Some((9, 10)));
    assert_eq!(tree.text_range(7), Some((11, 12)));
    assert_eq!(tree.text_range(8), Some((12, 12)));
}

#[test]
fn rule_can_be_applied_to_one_record() {
    let mut tree = EditTree::new(sample());
    tree.set_spacing(7, Space { loc: SpaceLoc::Before, value: SpaceValue::NoSpace });
    assert_eq!(tree.space_value(7), (0, 0));
    assert_eq!(tree.get_whitespace(7).fixed, (true, false));
    tree.set_spacing(3, Space { loc: SpaceLoc::Around, value: SpaceValue::Single });
    assert_eq!(tree.space_value(3), (1, 1));
    assert_eq!(tree.eol_value(3), (false, false));
    // the record of `b` decides the gap in front of `c` now
    assert_eq!(tree.apply_edits(), "a b cd\n");
    assert_eq!(tree.space_value(6), (4, 1));
}
