use std::collections::HashSet;
use tree_context::gaps::close_small_gaps_helper;
use tree_context::{Tree, TreeContext};

fn text_of(n: usize) -> String {
    let lines: Vec<String> = (0..n).map(|i| format!("l{}", i)).collect();
    lines.join("\n")
}

fn lines(of: &[usize]) -> HashSet<usize> {
    of.iter().copied().collect()
}

fn range(from: usize, to: usize) -> Vec<usize> {
    (from..=to).collect()
}

/// A class from line 1 to line 90 of a file of 100 lines, with four
/// methods of 25, 15, 5 and 2 lines beyond their first.
fn class_with_methods() -> Tree {
    let mut tree = Tree::new(0, 99).unwrap();
    let class = tree.add_child(0, 1, 90).unwrap();
    tree.add_child(class, 5, 30).unwrap();
    tree.add_child(class, 35, 50).unwrap();
    tree.add_child(class, 55, 60).unwrap();
    tree.add_child(class, 70, 72).unwrap();
    tree
}

#[test]
fn sampling_stops_once_the_budget_is_passed() {
    let tree = class_with_methods();
    let mut context = TreeContext::new(text_of(100));
    context.init(tree.walk());
    context.add_lois(vec![1]);
    context.add_context();
    let mut expected = range(0, 14);
    expected.extend(range(35, 44));
    expected.push(99);
    assert_eq!(context.get_show_lines(), &lines(&expected));
}

#[test]
fn child_context_alone_shows_headers_of_the_largest_children() {
    let tree = class_with_methods();
    let mut context = TreeContext::new(text_of(100));
    context.parent_context = false;
    context.last_line = false;
    context.loi_pad = 0;
    context.margin = 0;
    context.init(tree.walk());
    context.add_lois(vec![1]);
    context.add_context();
    // One line is shown at first and 8 may be added: the class header adds
    // ten, and the next child is not expanded.
    assert_eq!(context.get_show_lines(), &lines(&range(1, 10)));
}

#[test]
fn add_child_context_on_a_line_without_nodes_changes_nothing() {
    let tree = class_with_methods();
    let mut context = TreeContext::new(text_of(100));
    context.init(tree.walk());
    context.add_child_context(3);
    assert!(context.get_show_lines().is_empty());
    context.add_child_context(5000);
    assert!(context.get_show_lines().is_empty());
}

#[test]
fn add_child_context_shows_a_small_scope_whole() {
    let tree = class_with_methods();
    let mut context = TreeContext::new(text_of(100));
    context.init(tree.walk());
    context.add_child_context(70);
    assert_eq!(context.get_show_lines(), &lines(&[70, 71, 72]));
}

#[test]
fn add_parent_scopes_shows_the_headers_of_the_enclosing_scopes() {
    let tree = class_with_methods();
    let mut context = TreeContext::new(text_of(100));
    context.init(tree.walk());
    context.add_parent_scopes(40);
    // The class header, lines 1 to 10, and the method header, lines 35 to
    // 44; the header of the whole file starts on line 0 and is not shown.
    let mut expected = range(1, 10);
    expected.extend(range(35, 44));
    assert_eq!(context.get_show_lines(), &lines(&expected));
}

#[test]
fn add_parent_scopes_can_show_the_top_of_the_file() {
    let tree = class_with_methods();
    let mut context = TreeContext::new(text_of(100));
    context.show_top_of_file_parent_scope = true;
    context.last_line = false;
    context.init(tree.walk());
    context.add_parent_scopes(95);
    assert_eq!(context.get_show_lines(), &lines(&range(0, 9)));
}

#[test]
fn add_parent_scopes_expands_a_line_once() {
    let tree = class_with_methods();
    let mut context = TreeContext::new(text_of(100));
    context.init(tree.walk());
    context.add_parent_scopes(40);
    let first = context.get_show_lines().clone();
    context.add_parent_scopes(40);
    assert_eq!(context.get_show_lines(), &first);
}

#[test]
fn add_parent_scopes_ignores_a_number_that_is_no_line() {
    let tree = class_with_methods();
    let mut context = TreeContext::new(text_of(100));
    context.init(tree.walk());
    context.add_parent_scopes(101);
    context.add_parent_scopes(usize::MAX);
    assert!(context.get_show_lines().is_empty());
}

#[test]
fn padding_is_clipped_to_the_file() {
    let tree = Tree::new(0, 4).unwrap();
    let mut context = TreeContext::new(text_of(5));
    context.parent_context = false;
    context.child_context = false;
    context.last_line = false;
    context.margin = 0;
    context.loi_pad = 2;
    context.init(tree.walk());
    context.add_lois(vec![0]);
    context.add_context();
    assert_eq!(context.get_show_lines(), &lines(&[0, 1, 2]));
    context.add_lois(vec![4]);
    context.add_context();
    // Line 5 is the virtual line after the last.
    assert_eq!(context.get_show_lines(), &lines(&[0, 1, 2, 3, 4, 5]));
}

#[test]
fn line_of_interest_beyond_the_file_is_shown_and_expands_nothing() {
    let tree = class_with_methods();
    let mut context = TreeContext::new(text_of(100));
    context.init(tree.walk());
    context.add_lois(vec![5000]);
    context.add_context();
    assert_eq!(context.get_show_lines(), &lines(&[0, 1, 2, 99, 5000]));
    assert_eq!(context.format().matches("|l").count(), 4);
}

#[test]
fn margin_is_shown_whenever_a_line_is_of_interest() {
    let tree = class_with_methods();
    let mut context = TreeContext::new(text_of(100));
    context.margin = 7;
    context.parent_context = false;
    context.child_context = false;
    context.last_line = false;
    context.init(tree.walk());
    context.add_lois(vec![50]);
    context.add_context();
    let shown = context.get_show_lines();
    for line in 0..7 {
        assert!(shown.contains(&line));
    }
    assert_eq!(shown, &lines(&[0, 1, 2, 3, 4, 5, 6, 49, 50, 51]));
}

#[test]
fn lines_of_interest_are_always_shown() {
    let tree = class_with_methods();
    let mut context = TreeContext::new(text_of(100));
    context.init(tree.walk());
    context.add_lois(vec![3, 40, 71, 98]);
    context.add_context();
    for loi in context.get_lois() {
        assert!(context.get_show_lines().contains(loi));
    }
}

#[test]
fn second_run_selects_the_same() {
    let tree = class_with_methods();
    let mut context = TreeContext::new(text_of(100));
    context.init(tree.walk());
    context.add_lois(vec![40, 71]);
    context.add_context();
    let first = context.get_show_lines().clone();
    let first_text = context.format();
    context.add_context();
    assert_eq!(context.get_show_lines(), &first);
    assert_eq!(context.format(), first_text);
    let mut other = TreeContext::new(text_of(100));
    other.init(tree.walk());
    other.add_lois(vec![71, 40, 40]);
    other.add_context();
    assert_eq!(other.get_show_lines(), &first);
    assert_eq!(other.format(), first_text);
}

#[test]
fn single_line_gaps_are_closed() {
    let shown = lines(&[1, 3, 4, 8, 10, 13]);
    let closed = close_small_gaps_helper(&shown);
    assert_eq!(closed, lines(&[1, 2, 3, 4, 8, 9, 10, 13]));
}

#[test]
fn gap_closing_at_the_greatest_number_adds_nothing() {
    let shown = lines(&[usize::MAX - 1, usize::MAX]);
    assert_eq!(close_small_gaps_helper(&shown), shown);
    let apart = lines(&[usize::MAX - 2, usize::MAX]);
    assert_eq!(
        close_small_gaps_helper(&apart),
        lines(&[usize::MAX - 2, usize::MAX - 1, usize::MAX])
    );
}

#[test]
fn close_small_gaps_only_adds_lines() {
    let tree = class_with_methods();
    let mut context = TreeContext::new(text_of(100));
    context.init(tree.walk());
    context.add_parent_scopes(40);
    context.add_child_context(70);
    let before = context.get_show_lines().clone();
    context.close_small_gaps();
    assert!(before.is_subset(context.get_show_lines()));
    assert_eq!(context.get_show_lines(), &before);
    context.add_child_context(55);
    context.add_parent_scopes(50);
    context.add_lois(vec![46]);
    context.add_context();
    // Lines 35 to 44 are the header of the second method, 45 to 47 the
    // padding, and so on; nothing lies alone between two lines shown.
    let after = context.get_show_lines().clone();
    context.close_small_gaps();
    assert_eq!(context.get_show_lines(), &after);
}

#[test]
fn selection_closes_a_gap_of_one_line() {
    let tree = Tree::new(0, 9).unwrap();
    let mut context = TreeContext::new(text_of(10));
    context.parent_context = false;
    context.child_context = false;
    context.last_line = false;
    context.loi_pad = 0;
    context.margin = 3;
    context.init(tree.walk());
    context.add_lois(vec![4, 7]);
    context.add_context();
    assert_eq!(context.get_show_lines(), &lines(&[0, 1, 2, 3, 4, 7]));
}

#[test]
fn add_lois_takes_a_line_once() {
    let mut context = TreeContext::new(text_of(10));
    context.add_lois(vec![4, 7, 4]);
    context.add_lois(vec![7, 2]);
    assert_eq!(context.get_lois(), &lines(&[2, 4, 7]));
    assert!(context.get_show_lines().is_empty());
}
