use ra_fmt2::syntax::{Shape, TreeBuilder};

#[test]
fn tree_keeps_every_token_of_the_text() {
    let mut b = TreeBuilder::new(0);
    b.start_node(1);
    b.token(2, "let");
    b.whitespace(3, "  ");
    b.token(4, "x");
    b.finish_node();
    b.whitespace(3, "\n");
    let tree = b.finish();
    assert_eq!(tree.len(), 6);
    assert_eq!(tree.text(), "let  x\n");
}

#[test]
fn elements_hang_under_the_open_node() {
    let mut b = TreeBuilder::new(9);
    b.token(1, "a");
    b.start_node(2);
    b.token(1, "b");
    b.start_node(3);
    b.finish_node();
    b.token(1, "c");
    b.finish_node();
    b.token(1, "d");
    let tree = b.finish();
    let parents: Vec<usize> = tree.elems.iter().map(|e| e.parent).collect();
    assert_eq!(parents, vec![0, 0, 0, 2, 2, 2, 0]);
    let ends: Vec<usize> = (0..tree.len()).map(|i| tree.end_of(i)).collect();
    assert_eq!(ends, vec![7, 2, 6, 4, 5, 6, 7]);
    let shapes: Vec<Shape> = tree.elems.iter().map(|e| e.shape).collect();
    assert_eq!(
        shapes,
        vec![Shape::Node, Shape::Token, Shape::Node, Shape::Token, Shape::Node, Shape::Token, Shape::Token]
    );
    assert_eq!(tree.elems[0].kind, 9);
    assert_eq!(tree.elems[4].kind, 3);
}

#[test]
fn root_stays_open_until_the_end() {
    let mut b = TreeBuilder::new(0);
    assert!(!b.finish_node());
    b.start_node(1);
    assert!(b.finish_node());
    assert!(!b.finish_node());
    b.token(2, "x");
    let tree = b.finish();
    assert_eq!(tree.elems[2].parent, 0);
    assert_eq!(tree.end_of(0), 3);
    assert_eq!(tree.end_of(1), 2);
    assert_eq!(tree.end_of(2), 3);
}

#[test]
fn open_nodes_are_closed_at_the_end() {
    let mut b = TreeBuilder::new(0);
    b.start_node(1);
    b.start_node(2);
    b.token(3, "x");
    let tree = b.finish();
    let ends: Vec<usize> = (0..tree.len()).map(|i| tree.end_of(i)).collect();
    assert_eq!(ends, vec![4, 4, 4, 4]);
    assert_eq!(tree.text(), "x");
}

#[test]
fn tree_of_a_root_alone_has_no_text() {
    let tree = TreeBuilder::new(5).finish();
    assert_eq!(tree.len(), 1);
    assert_eq!(tree.end_of(0), 1);
    assert_eq!(tree.text(), "");
}

#[test]
fn built_tree_is_well_formed() {
    let mut b = TreeBuilder::new(0);
    b.start_node(1);
    b.token(2, "x");
    b.whitespace(3, " ");
    b.finish_node();
    assert!(b.finish().is_valid());
    assert!(TreeBuilder::new(0).finish().is_valid());
}

#[test]
fn tree_with_broken_links_is_not_well_formed() {
    let good = || {
        let mut b = TreeBuilder::new(0);
        b.start_node(1);
        b.token(2, "x");
        b.finish_node();
        b.token(2, "y");
        b.finish()
    };
    assert!(good().is_valid());
    let mut t = good();
    t.elems[2].parent = 2;
    assert!(!t.is_valid());
    let mut t = good();
    t.elems[3].parent = 2;
    assert!(!t.is_valid());
    let mut t = good();
    t.elems[0].parent = 1;
    assert!(!t.is_valid());
    let mut t = good();
    t.elems[0].shape = Shape::Token;
    assert!(!t.is_valid());
    let mut t = good();
    t.elems[1].text = "z".to_string();
    assert!(!t.is_valid());
    let mut t = good();
    t.elems.clear();
    assert!(!t.is_valid());
}

#[test]
fn tree_out_of_pre_order_is_not_well_formed() {
    // a token of node 1 that stands behind node 2
    let mut b = TreeBuilder::new(0);
    b.start_node(1);
    b.finish_node();
    b.start_node(2);
    b.finish_node();
    b.token(3, "x");
    let mut t = b.finish();
    assert!(t.is_valid());
    t.elems[3].parent = 1;
    assert!(!t.is_valid());
    // a child may follow the last element below an earlier child
    let mut b = TreeBuilder::new(0);
    b.start_node(1);
    b.start_node(2);
    b.token(3, "x");
    b.finish_node();
    b.token(3, "y");
    b.finish_node();
    b.token(3, "z");
    let t = b.finish();
    assert!(t.is_valid());
    let parents: Vec<usize> = t.elems.iter().map(|e| e.parent).collect();
    assert_eq!(parents, vec![0, 0, 1, 2, 1, 0]);
    // nor may an element hang under a node that was closed before it
    let mut bad = t.clone();
    bad.elems[5].parent = 2;
    assert!(!bad.is_valid());
}
