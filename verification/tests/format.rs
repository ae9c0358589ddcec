use ra_fmt2::dsl::{IndentDsl, SpaceLoc, SpaceValue, SpacingDsl};
use ra_fmt2::error::FormatError;
use ra_fmt2::pattern::Pattern;
use ra_fmt2::syntax::{SyntaxTree, TreeBuilder};

const SOURCE_FILE: u16 = 0;
const FN_DEF: u16 = 1;
const FN_KW: u16 = 2;
const WHITESPACE: u16 = 3;
const NAME: u16 = 4;
const IDENT: u16 = 5;
const PARAM_LIST: u16 = 6;
const L_PAREN: u16 = 7;
const R_PAREN: u16 = 8;
const BLOCK_EXPR: u16 = 9;
const L_CURLY: u16 = 10;
const R_CURLY: u16 = 11;
const LET_STMT: u16 = 12;
const LET_KW: u16 = 13;
const BIND_PAT: u16 = 14;
const EQ: u16 = 15;
const LITERAL: u16 = 16;
const INT_NUMBER: u16 = 17;
const SEMI: u16 = 18;
const COMMA: u16 = 19;
const IF_EXPR: u16 = 20;
const IF_KW: u16 = 21;
const KINDS: u16 = 22;

fn name(b: &mut TreeBuilder, text: &str) {
    b.start_node(NAME);
    b.token(IDENT, text);
    b.finish_node();
}

fn let_stmt(b: &mut TreeBuilder, var: &str, value: &str, spaced: bool) {
    b.start_node(LET_STMT);
    b.token(LET_KW, "let");
    b.whitespace(WHITESPACE, " ");
    b.start_node(BIND_PAT);
    name(b, var);
    b.finish_node();
    if spaced {
        b.whitespace(WHITESPACE, " ");
    }
    b.token(EQ, "=");
    if spaced {
        b.whitespace(WHITESPACE, " ");
    }
    b.start_node(LITERAL);
    b.token(INT_NUMBER, value);
    b.finish_node();
    b.token(SEMI, ";");
    b.finish_node();
}

/// `fn f(){\nlet x=1;\n}`
fn small_fn() -> SyntaxTree {
    let mut b = TreeBuilder::new(SOURCE_FILE);
    b.start_node(FN_DEF);
    b.token(FN_KW, "fn");
    b.whitespace(WHITESPACE, " ");
    name(&mut b, "f");
    b.start_node(PARAM_LIST);
    b.token(L_PAREN, "(");
    b.token(R_PAREN, ")");
    b.finish_node();
    b.start_node(BLOCK_EXPR);
    b.token(L_CURLY, "{");
    b.whitespace(WHITESPACE, "\n");
    let_stmt(&mut b, "x", "1", false);
    b.whitespace(WHITESPACE, "\n");
    b.token(R_CURLY, "}");
    b.finish_node();
    b.finish_node();
    b.finish()
}

/// `a,b`
fn pair() -> SyntaxTree {
    let mut b = TreeBuilder::new(SOURCE_FILE);
    b.token(IDENT, "a");
    b.token(COMMA, ",");
    b.token(IDENT, "b");
    b.finish()
}

fn ordinary_spacing() -> SpacingDsl {
    let mut dsl = SpacingDsl::new(KINDS);
    dsl.rule(Pattern::new(vec![L_CURLY]), SpaceLoc::Before, SpaceValue::Single).unwrap();
    dsl.rule(Pattern::new(vec![EQ]), SpaceLoc::Around, SpaceValue::Single).unwrap();
    dsl.rule(Pattern::new(vec![COMMA]), SpaceLoc::After, SpaceValue::Single).unwrap();
    dsl
}

fn block_indent() -> IndentDsl {
    let mut dsl = IndentDsl::new(KINDS, 4);
    dsl.rule(Pattern::new(vec![LET_STMT, IF_EXPR]), vec![Pattern::new(vec![BLOCK_EXPR, IF_EXPR, LET_STMT])])
        .unwrap();
    dsl
}

#[test]
fn comma_gets_one_blank_behind_it() {
    let mut spacing = SpacingDsl::new(KINDS);
    spacing.rule(Pattern::new(vec![COMMA]), SpaceLoc::After, SpaceValue::Single).unwrap();
    let indent = IndentDsl::new(KINDS, 4);
    let tree = pair();
    assert_eq!(tree.text(), "a,b");
    assert_eq!(ra_fmt2::engine::format(tree, &spacing, &indent), Ok("a, b\n".to_string()));
}

#[test]
fn statement_in_a_block_is_indented_by_one_unit() {
    let tree = small_fn();
    assert_eq!(tree.text(), "fn f(){\nlet x=1;\n}");
    let out = ra_fmt2::engine::format(tree, &ordinary_spacing(), &block_indent());
    assert_eq!(out, Ok("fn f() {\n    let x = 1;\n}\n".to_string()));
}

#[test]
fn two_indent_rules_for_one_block_are_refused() {
    let mut indent = IndentDsl::new(KINDS, 4);
    indent.rule(Pattern::new(vec![LET_STMT]), vec![Pattern::new(vec![BLOCK_EXPR])]).unwrap();
    indent.rule(Pattern::new(vec![LET_STMT, IF_EXPR]), vec![]).unwrap();
    let out = ra_fmt2::engine::format(small_fn(), &ordinary_spacing(), &indent);
    assert_eq!(out, Err(FormatError::AmbiguousIndentRule));
}

#[test]
fn tree_without_tokens_is_refused() {
    let tree = TreeBuilder::new(SOURCE_FILE).finish();
    assert_eq!(tree.text(), "");
    let out = ra_fmt2::engine::format(tree, &ordinary_spacing(), &block_indent());
    assert_eq!(out, Err(FormatError::EmptyInput));
}

#[test]
fn tree_of_whitespace_alone_is_refused() {
    let mut b = TreeBuilder::new(SOURCE_FILE);
    b.whitespace(WHITESPACE, "  \n");
    let out = ra_fmt2::engine::format(b.finish(), &ordinary_spacing(), &block_indent());
    assert_eq!(out, Err(FormatError::EmptyInput));
}

#[test]
fn rule_with_unknown_kind_is_refused() {
    let mut spacing = SpacingDsl::new(KINDS);
    let res = spacing.rule(Pattern::new(vec![COMMA, KINDS]), SpaceLoc::After, SpaceValue::Single);
    assert_eq!(res, Err(FormatError::InvalidPattern));
    assert_eq!(spacing.rules.len(), 0);
    let mut indent = IndentDsl::new(KINDS, 4);
    let res = indent.rule(Pattern::new(vec![LET_STMT]), vec![Pattern::inside(vec![BLOCK_EXPR], vec![999])]);
    assert_eq!(res, Err(FormatError::InvalidPattern));
    assert_eq!(indent.rules.len(), 0);
}

#[test]
fn formatting_its_own_output_changes_nothing() {
    // `fn f() {\n    let x = 1;\n}\n`, as a parser would hand it back.
    let mut b = TreeBuilder::new(SOURCE_FILE);
    b.start_node(FN_DEF);
    b.token(FN_KW, "fn");
    b.whitespace(WHITESPACE, " ");
    name(&mut b, "f");
    b.start_node(PARAM_LIST);
    b.token(L_PAREN, "(");
    b.token(R_PAREN, ")");
    b.finish_node();
    b.whitespace(WHITESPACE, " ");
    b.start_node(BLOCK_EXPR);
    b.token(L_CURLY, "{");
    b.whitespace(WHITESPACE, "\n    ");
    let_stmt(&mut b, "x", "1", true);
    b.whitespace(WHITESPACE, "\n");
    b.token(R_CURLY, "}");
    b.finish_node();
    b.finish_node();
    b.whitespace(WHITESPACE, "\n");
    let tree = b.finish();
    let text = tree.text();
    assert_eq!(text, "fn f() {\n    let x = 1;\n}\n");
    assert_eq!(ra_fmt2::engine::format(tree, &ordinary_spacing(), &block_indent()), Ok(text));
}

#[test]
fn nested_blocks_add_their_indents() {
    // `fn f(){\nif{\nlet x=1;\n}\n}`
    let mut b = TreeBuilder::new(SOURCE_FILE);
    b.start_node(FN_DEF);
    b.token(FN_KW, "fn");
    b.whitespace(WHITESPACE, " ");
    name(&mut b, "f");
    b.start_node(BLOCK_EXPR);
    b.token(L_CURLY, "{");
    b.whitespace(WHITESPACE, "\n");
    b.start_node(IF_EXPR);
    b.token(IF_KW, "if");
    b.start_node(BLOCK_EXPR);
    b.token(L_CURLY, "{");
    b.whitespace(WHITESPACE, "\n");
    let_stmt(&mut b, "x", "1", false);
    b.whitespace(WHITESPACE, "\n");
    b.token(R_CURLY, "}");
    b.finish_node();
    b.finish_node();
    b.whitespace(WHITESPACE, "\n");
    b.token(R_CURLY, "}");
    b.finish_node();
    b.finish_node();
    let out = ra_fmt2::engine::format(b.finish(), &ordinary_spacing(), &block_indent());
    assert_eq!(out, Ok("fn f {\n    if {\n        let x = 1;\n}\n}\n".to_string()));
}

#[test]
fn tables_know_whether_their_rules_are_known() {
    let mut spacing = ordinary_spacing();
    assert!(spacing.is_valid());
    spacing.kind_count = COMMA;
    assert!(!spacing.is_valid());
    let mut indent = block_indent();
    assert!(indent.is_valid());
    indent.kind_count = LET_STMT;
    assert!(!indent.is_valid());
    assert!(SpacingDsl::new(0).is_valid());
    assert!(IndentDsl::new(0, 4).is_valid());
    assert_eq!(ra_fmt2::dsl::INDENT, 4);
}
