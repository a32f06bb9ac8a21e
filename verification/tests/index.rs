use std::collections::HashSet;
use tree_context::order::sorted_by_len;
use tree_context::{Tree, TreeContext};

fn text_of(n: usize) -> String {
    let lines: Vec<String> = (0..n).map(|i| format!("l{}", i)).collect();
    lines.join("\n")
}

fn lines(of: &[usize]) -> HashSet<usize> {
    of.iter().copied().collect()
}

/// A file of 30 lines: a function from line 2 to line 20 with a block
/// from line 2 to line 20, in it a loop from line 5 to line 8 and a call on
/// line 10; after it a constant on line 25.
fn small_file() -> Tree {
    let mut tree = Tree::new(0, 29).unwrap();
    let function = tree.add_child(0, 2, 20).unwrap();
    let block = tree.add_child(function, 2, 20).unwrap();
    let looped = tree.add_child(block, 5, 8).unwrap();
    tree.add_child(looped, 6, 7).unwrap();
    tree.add_child(block, 10, 10).unwrap();
    tree.add_child(0, 25, 25).unwrap();
    tree
}

#[test]
fn tree_takes_children_in_document_order_only() {
    let mut tree = Tree::new(0, 9).unwrap();
    assert_eq!(tree.node_count(), 1);
    let first = tree.add_child(0, 1, 4).unwrap();
    assert_eq!(first, 1);
    let inner = tree.add_child(first, 2, 3).unwrap();
    assert_eq!(inner, 2);
    let second = tree.add_child(0, 5, 9).unwrap();
    assert_eq!(second, 3);
    // The first child and what is in it are closed now.
    assert_eq!(tree.add_child(first, 4, 4), None);
    assert_eq!(tree.add_child(inner, 3, 3), None);
    // No such node, and rows out of order.
    assert_eq!(tree.add_child(7, 6, 6), None);
    assert_eq!(tree.add_child(second, 7, 6), None);
    assert_eq!(tree.node_count(), 4);
    assert_eq!(tree.add_child(second, 6, 7), Some(4));
    assert_eq!(tree.max_end_line(), 9);
}

#[test]
fn tree_needs_rows_in_order() {
    assert!(Tree::new(3, 2).is_none());
    assert!(Tree::new(3, 3).is_some());
}

#[test]
fn cursor_moves_to_children_siblings_and_parents() {
    let tree = small_file();
    let mut cursor = tree.walk();
    assert_eq!((cursor.node().start_line(), cursor.node().end_line()), (0, 29));
    assert!(!cursor.goto_next_sibling());
    assert!(!cursor.goto_parent());
    assert!(cursor.goto_first_child());
    assert_eq!((cursor.node().start_line(), cursor.node().end_line()), (2, 20));
    assert!(cursor.goto_next_sibling());
    assert_eq!((cursor.node().start_line(), cursor.node().end_line()), (25, 25));
    assert!(!cursor.goto_first_child());
    assert!(!cursor.goto_next_sibling());
    assert!(cursor.goto_parent());
    assert_eq!((cursor.node().start_line(), cursor.node().end_line()), (0, 29));
}

#[test]
fn cursor_of_a_node_stays_in_its_subtree() {
    let tree = small_file();
    let mut cursor = tree.walk();
    assert!(cursor.goto_first_child());
    let function = cursor.node();
    let mut inner = function.walk();
    assert!(!inner.goto_next_sibling());
    assert!(!inner.goto_parent());
    assert!(inner.goto_first_child());
    assert_eq!((inner.node().start_line(), inner.node().end_line()), (2, 20));
    assert!(inner.goto_parent());
    assert!(!inner.goto_parent());
}

#[test]
fn new_counts_a_virtual_line() {
    assert_eq!(TreeContext::new(String::new()).num_lines(), 2);
    assert_eq!(TreeContext::new("one".to_string()).num_lines(), 2);
    assert_eq!(TreeContext::new("one\ntwo".to_string()).num_lines(), 3);
    assert_eq!(TreeContext::new("one\ntwo\n".to_string()).num_lines(), 4);
    assert_eq!(TreeContext::new("\n\n".to_string()).num_lines(), 4);
}

#[test]
fn new_has_the_default_settings() {
    let context = TreeContext::new("one\ntwo".to_string());
    assert!(context.parent_context);
    assert!(context.child_context);
    assert!(context.last_line);
    assert_eq!(context.margin, 3);
    assert!(context.mark_lois);
    assert_eq!(context.header_max, 10);
    assert!(!context.show_top_of_file_parent_scope);
    assert_eq!(context.loi_pad, 1);
    assert!(!context.line_number);
    assert!(context.get_lois().is_empty());
    assert!(context.get_show_lines().is_empty());
    assert_eq!(context.get_scopes().len(), 3);
    assert_eq!(context.get_headers().len(), 3);
}

#[test]
fn text_is_cut_at_every_line_feed() {
    let tree = Tree::new(0, 3).unwrap();
    let mut context = TreeContext::new("a\n\nb|c\n".to_string());
    context.mark_lois = false;
    context.margin = 4;
    context.init(tree.walk());
    context.add_lois(vec![0]);
    context.add_context();
    assert_eq!(context.format(), "|a\n|\n|b|c\n|\n");
}

#[test]
fn walk_records_scopes_and_headers() {
    let tree = small_file();
    let mut context = TreeContext::new(text_of(30));
    context.walk(tree.walk());
    let scopes = context.get_scopes();
    assert_eq!(scopes.len(), 31);
    assert_eq!(scopes[0], lines(&[0]));
    assert_eq!(scopes[2], lines(&[0, 2]));
    assert_eq!(scopes[4], lines(&[0, 2]));
    assert_eq!(scopes[5], lines(&[0, 2, 5]));
    assert_eq!(scopes[6], lines(&[0, 2, 5, 6]));
    assert_eq!(scopes[7], lines(&[0, 2, 5, 6]));
    assert_eq!(scopes[8], lines(&[0, 2, 5]));
    assert_eq!(scopes[10], lines(&[0, 2, 10]));
    assert_eq!(scopes[20], lines(&[0, 2]));
    assert_eq!(scopes[21], lines(&[0]));
    assert_eq!(scopes[25], lines(&[0, 25]));
    assert_eq!(scopes[29], lines(&[0]));
    assert_eq!(scopes[30], lines(&[]));
    let headers = context.get_headers();
    assert_eq!(headers[0], vec![(29, 0, 29)]);
    assert_eq!(headers[2], vec![(18, 2, 20), (18, 2, 20)]);
    assert_eq!(headers[5], vec![(3, 5, 8)]);
    assert_eq!(headers[6], vec![(1, 6, 7)]);
    assert_eq!(headers[10], vec![]);
    assert_eq!(headers[25], vec![]);
}

#[test]
fn every_node_is_a_scope_of_every_line_it_spans() {
    let tree = small_file();
    let mut context = TreeContext::new(text_of(30));
    context.init(tree.walk());
    let spans = [(0, 29), (2, 20), (2, 20), (5, 8), (6, 7), (10, 10), (25, 25)];
    for (first, last) in spans {
        for line in first..=last {
            assert!(context.get_scopes()[line].contains(&first));
        }
    }
}

#[test]
fn walk_from_a_node_records_its_subtree() {
    let tree = small_file();
    let mut at = tree.walk();
    assert!(at.goto_first_child());
    assert!(at.goto_first_child());
    assert!(at.goto_first_child());
    let looped = at.node();
    assert_eq!((looped.start_line(), looped.end_line()), (5, 8));
    let mut context = TreeContext::new(text_of(30));
    context.walk(looped.walk());
    let scopes = context.get_scopes();
    assert_eq!(scopes[4], lines(&[]));
    assert_eq!(scopes[5], lines(&[5]));
    assert_eq!(scopes[6], lines(&[5, 6]));
    assert_eq!(scopes[8], lines(&[5]));
    assert_eq!(scopes[9], lines(&[]));
}

#[test]
fn arranged_headers_are_one_to_a_line() {
    let tree = small_file();
    let mut context = TreeContext::new(text_of(30));
    context.init(tree.walk());
    let headers = context.get_headers();
    assert_eq!(headers.len(), 31);
    for header in headers {
        assert_eq!(header.len(), 1);
        assert_eq!(header[0].0, 0);
    }
    // Nodes of more than 10 lines are cut to 10.
    assert_eq!(headers[0], vec![(0, 0, 10)]);
    assert_eq!(headers[2], vec![(0, 2, 12)]);
    // Smaller ones keep their last line.
    assert_eq!(headers[5], vec![(0, 5, 8)]);
    assert_eq!(headers[6], vec![(0, 6, 7)]);
    // A line without a header stands for itself.
    assert_eq!(headers[10], vec![(0, 10, 11)]);
    assert_eq!(headers[30], vec![(0, 30, 31)]);
}

#[test]
fn arranging_keeps_the_smallest_node_of_a_line() {
    let mut tree = Tree::new(0, 40).unwrap();
    let outer = tree.add_child(0, 3, 30).unwrap();
    let middle = tree.add_child(outer, 3, 9).unwrap();
    tree.add_child(middle, 3, 5).unwrap();
    let mut context = TreeContext::new(text_of(41));
    context.header_max = 4;
    context.walk(tree.walk());
    assert_eq!(context.get_headers()[3], vec![(27, 3, 30), (6, 3, 9), (2, 3, 5)]);
    context.arrange_headers();
    assert_eq!(context.get_headers()[3], vec![(0, 3, 5)]);
    assert_eq!(context.get_headers()[0], vec![(0, 0, 4)]);
}

#[test]
fn arranging_twice_changes_nothing() {
    let tree = small_file();
    let mut context = TreeContext::new(text_of(30));
    context.header_max = 2;
    context.init(tree.walk());
    let once = context.get_headers().clone();
    assert_eq!(once[5], vec![(0, 5, 7)]);
    context.arrange_headers();
    assert_eq!(context.get_headers(), &once);
}

#[test]
fn header_cut_has_the_greatest_length() {
    let tree = small_file();
    for header_max in [0usize, 1, 3, 17, 18, 19] {
        let mut context = TreeContext::new(text_of(30));
        context.header_max = header_max;
        context.init(tree.walk());
        let header = context.get_headers()[2][0];
        if 18 > header_max {
            assert_eq!(header.2 - header.1, header_max);
        } else {
            assert_eq!(header, (0, 2, 20));
        }
    }
}

#[test]
fn last_line_of_a_scope_is_the_greatest() {
    let mut tree = Tree::new(0, 40).unwrap();
    let outer = tree.add_child(0, 3, 9).unwrap();
    tree.add_child(outer, 3, 3).unwrap();
    tree.add_child(outer, 3, 30).unwrap();
    let mut context = TreeContext::new(text_of(41));
    context.init(tree.walk());
    assert_eq!(context.get_last_line_of_scope(3), 30);
    assert_eq!(context.get_last_line_of_scope(0), 40);
}

#[test]
fn family_is_the_node_and_its_children() {
    let tree = small_file();
    let context = TreeContext::new(text_of(30));
    let mut at = tree.walk();
    let root = context.find_all_children(at.node());
    let spans: Vec<(usize, usize)> = root.iter().map(|n| (n.start_line(), n.end_line())).collect();
    assert_eq!(spans, vec![(0, 29), (2, 20), (25, 25)]);
    assert!(at.goto_first_child());
    assert!(at.goto_first_child());
    let block = context.find_all_children(at.node());
    let spans: Vec<(usize, usize)> =
        block.iter().map(|n| (n.start_line(), n.end_line())).collect();
    assert_eq!(spans, vec![(2, 20), (5, 8), (10, 10)]);
    assert!(at.goto_first_child());
    assert!(at.goto_first_child());
    let leaf = context.find_all_children(at.node());
    assert_eq!(leaf.len(), 1);
    assert_eq!((leaf[0].start_line(), leaf[0].end_line()), (6, 7));
}

#[test]
fn spans_are_sorted_by_length_in_their_order() {
    let spans = vec![(4, 9), (1, 1), (7, 12), (0, 2), (5, 5), (3, 8)];
    let sorted = sorted_by_len(&spans);
    assert_eq!(sorted, vec![(1, 1), (5, 5), (0, 2), (4, 9), (7, 12), (3, 8)]);
    assert_eq!(sorted_by_len(&Vec::new()), Vec::new());
}

#[test]
fn of_two_children_of_one_length_the_later_is_sampled_first() {
    // Two methods of 12 lines each in a class of 60: the budget of 6 lines
    // is passed with the header of the first one expanded, the second.
    let mut tree = Tree::new(0, 79).unwrap();
    let class = tree.add_child(0, 1, 61).unwrap();
    tree.add_child(class, 20, 32).unwrap();
    tree.add_child(class, 40, 52).unwrap();
    let mut context = TreeContext::new(text_of(80));
    context.parent_context = false;
    context.last_line = false;
    context.loi_pad = 0;
    context.margin = 0;
    context.header_max = 3;
    context.init(tree.walk());
    context.add_lois(vec![1]);
    context.add_context();
    // The class header adds lines 2 and 3, the later method 40 to 42, the
    // earlier one 20 to 22: then 9 lines are shown, of which 8 were added.
    assert_eq!(context.get_show_lines(), &lines(&[1, 2, 3, 20, 21, 22, 40, 41, 42]));
    let mut tight = TreeContext::new(text_of(80));
    tight.parent_context = false;
    tight.last_line = false;
    tight.loi_pad = 0;
    tight.margin = 0;
    tight.header_max = 4;
    tight.init(tree.walk());
    tight.add_lois(vec![1]);
    tight.add_context();
    // With headers of 4 lines the class adds 3 and the later method 4:
    // that is more than 6, and the earlier method is not expanded.
    assert_eq!(tight.get_show_lines(), &lines(&[1, 2, 3, 4, 40, 41, 42, 43]));
}

#[test]
fn state_lists_lines_and_scopes_from_one() {
    let mut tree = Tree::new(1, 3).unwrap();
    tree.add_child(0, 2, 3).unwrap();
    let mut context = TreeContext::new(text_of(5));
    context.init(tree.walk());
    assert_eq!(
        context.print_state(),
        vec![(2, vec![2]), (3, vec![2, 3]), (4, vec![2, 3])]
    );
    assert_eq!(TreeContext::new(text_of(5)).print_state(), vec![]);
}
