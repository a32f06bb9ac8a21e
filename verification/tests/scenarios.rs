use std::collections::HashSet;
use tree_context::{Tree, TreeContext};

/// A text of `n` lines, "line0" to "line<n-1>", with no line feed at the end.
fn numbered_lines(n: usize) -> String {
    let lines: Vec<String> = (0..n).map(|i| format!("line{}", i)).collect();
    lines.join("\n")
}

/// A file of `total` lines with one function from `first` to `last`: a
/// signature on its first line, a block, one statement on every line in
/// between and a closing brace on its last line.
fn one_function(total: usize, first: usize, last: usize) -> Tree {
    let mut tree = Tree::new(0, total - 1).unwrap();
    let function = tree.add_child(0, first, last).unwrap();
    tree.add_child(function, first, first).unwrap();
    let block = tree.add_child(function, first, last).unwrap();
    for line in first + 1..last {
        tree.add_child(block, line, line).unwrap();
    }
    tree.add_child(block, last, last).unwrap();
    tree
}

fn set_of(lines: &[usize]) -> HashSet<usize> {
    lines.iter().copied().collect()
}

fn count_of(text: &str, piece: &str) -> usize {
    text.matches(piece).count()
}

#[test]
fn no_lines_of_interest_render_nothing() {
    let tree = one_function(20, 2, 18);
    let mut context = TreeContext::new(numbered_lines(20));
    context.init(tree.walk());
    context.add_context();
    assert!(context.get_show_lines().is_empty());
    assert_eq!(context.format(), "");
}

#[test]
fn nothing_selected_renders_nothing() {
    let context = TreeContext::new(numbered_lines(4));
    assert_eq!(context.format(), "");
}

#[test]
fn function_around_a_line_of_interest() {
    let tree = one_function(20, 2, 18);
    let mut context = TreeContext::new(numbered_lines(20));
    context.init(tree.walk());
    context.add_lois(vec![10]);
    context.add_context();
    let expected = set_of(&[0, 1, 2, 3, 4, 5, 6, 7, 8, 9, 10, 11, 18, 19]);
    assert_eq!(context.get_show_lines(), &expected);
    let text = context.format();
    assert_eq!(
        text,
        "|line0\n|line1\n|line2\n|line3\n|line4\n|line5\n|line6\n|line7\n|line8\n|line9\n█\n|line11\n⋮...\n|line18\n|line19\n"
    );
    // Header and padding meet, so no marker stands between them; the one
    // marker stands for the lines 12 to 17.
    assert_eq!(count_of(&text, "⋮...\n"), 1);
    assert_eq!(count_of(&text[..text.find("█\n").unwrap()], "⋮"), 0);
}

#[test]
fn function_with_a_short_header_leaves_one_marker_before_the_padding() {
    let tree = one_function(20, 2, 18);
    let mut context = TreeContext::new(numbered_lines(20));
    context.header_max = 3;
    context.mark_lois = false;
    context.init(tree.walk());
    context.add_lois(vec![10]);
    context.add_context();
    let shown = context.get_show_lines();
    for line in [0, 1, 2, 9, 10, 11, 18, 19] {
        assert!(shown.contains(&line));
    }
    assert_eq!(shown, &set_of(&[0, 1, 2, 3, 4, 9, 10, 11, 18, 19]));
    let text = context.format();
    assert_eq!(
        text,
        "|line0\n|line1\n|line2\n|line3\n|line4\n⋮...\n|line9\n|line10\n|line11\n⋮...\n|line18\n|line19\n"
    );
    let header_to_padding = &text[text.find("|line4\n").unwrap()..text.find("|line9\n").unwrap()];
    assert_eq!(count_of(header_to_padding, "⋮...\n"), 1);
}

#[test]
fn small_scope_around_a_line_of_interest_is_shown_whole() {
    let tree = one_function(12, 4, 7);
    let mut context = TreeContext::new(numbered_lines(12));
    context.init(tree.walk());
    context.add_lois(vec![5]);
    context.add_context();
    let shown = context.get_show_lines();
    for line in 4..=7 {
        assert!(shown.contains(&line));
    }
    assert_eq!(shown, &set_of(&[0, 1, 2, 3, 4, 5, 6, 7, 11]));
}

#[test]
fn small_scope_that_starts_on_a_line_of_interest_is_shown_whole() {
    let tree = one_function(30, 14, 17);
    let mut context = TreeContext::new(numbered_lines(30));
    context.parent_context = false;
    context.last_line = false;
    context.loi_pad = 0;
    context.margin = 0;
    context.init(tree.walk());
    context.add_lois(vec![14]);
    context.add_context();
    assert_eq!(context.get_show_lines(), &set_of(&[14, 15, 16, 17]));
}

#[test]
fn first_line_of_interest_has_no_marker_before_it() {
    let tree = one_function(8, 2, 6);
    let mut context = TreeContext::new(numbered_lines(8));
    context.mark_lois = false;
    context.child_context = false;
    context.init(tree.walk());
    context.add_lois(vec![0]);
    context.add_context();
    assert_eq!(context.get_show_lines(), &set_of(&[0, 1, 2, 7]));
    let text = context.format();
    assert!(text.starts_with("|line0\n"));
    assert_eq!(text, "|line0\n|line1\n|line2\n⋮...\n|line7\n");
}

#[test]
fn first_line_of_interest_samples_the_whole_file() {
    let tree = one_function(8, 2, 6);
    let mut context = TreeContext::new(numbered_lines(8));
    context.mark_lois = false;
    context.init(tree.walk());
    context.add_lois(vec![0]);
    context.add_context();
    // The file is the scope that starts on line 0: its largest child, the
    // function, is expanded, which shows its header, lines 2 to 5, and its
    // last line.
    assert_eq!(context.get_show_lines(), &set_of(&[0, 1, 2, 3, 4, 5, 6, 7]));
    assert_eq!(
        context.format(),
        "|line0\n|line1\n|line2\n|line3\n|line4\n|line5\n|line6\n|line7\n"
    );
}

#[test]
fn first_line_of_interest_is_marked_in_place() {
    let tree = one_function(8, 2, 6);
    let mut context = TreeContext::new(numbered_lines(8));
    context.child_context = false;
    context.init(tree.walk());
    context.add_lois(vec![0]);
    context.add_context();
    let text = context.format();
    assert!(!text.starts_with("⋮...\n"));
    assert!(!text.starts_with("...⋮...\n"));
    assert_eq!(text, "█\n|line1\n|line2\n⋮...\n|line7\n");
}

#[test]
fn marker_stands_first_where_the_first_line_is_left_out() {
    let tree = one_function(8, 2, 6);
    let mut context = TreeContext::new(numbered_lines(8));
    context.margin = 0;
    context.loi_pad = 0;
    context.parent_context = false;
    context.child_context = false;
    context.last_line = false;
    context.mark_lois = false;
    context.init(tree.walk());
    context.add_lois(vec![4]);
    context.add_context();
    assert_eq!(context.get_show_lines(), &set_of(&[4]));
    assert_eq!(context.format(), "⋮...\n|line4\n⋮...\n");
}

#[test]
fn wide_marker_with_line_numbers() {
    let tree = one_function(8, 2, 6);
    let mut context = TreeContext::new(numbered_lines(8));
    context.line_number = true;
    context.mark_lois = false;
    context.child_context = false;
    context.init(tree.walk());
    context.add_lois(vec![0]);
    context.add_context();
    assert_eq!(context.format(), "|line0\n|line1\n|line2\n...⋮...\n|line7\n");
}

#[test]
fn first_line_of_interest_under_the_default_settings() {
    let tree = one_function(8, 2, 6);
    let mut context = TreeContext::new(numbered_lines(8));
    context.init(tree.walk());
    context.add_lois(vec![0]);
    context.add_context();
    let text = context.format();
    assert!(!text.starts_with("⋮...\n"));
    assert_eq!(text, "█\n|line1\n|line2\n|line3\n|line4\n|line5\n|line6\n|line7\n");
}

#[test]
fn marker_of_a_line_of_interest_is_no_marker_for_lines_left_out() {
    let tree = one_function(8, 2, 6);
    for line_number in [false, true] {
        let mut context = TreeContext::new(numbered_lines(8));
        context.line_number = line_number;
        context.margin = 0;
        context.loi_pad = 0;
        context.parent_context = false;
        context.child_context = false;
        context.last_line = false;
        context.init(tree.walk());
        context.add_lois(vec![4]);
        context.add_context();
        let gap = if line_number { "...⋮...\n" } else { "⋮...\n" };
        assert_eq!(context.format(), format!("{}█\n{}", gap, gap));
        context.mark_lois = false;
        assert_eq!(context.format(), format!("{}|line4\n{}", gap, gap));
    }
}

#[test]
fn lines_of_interest_next_to_each_other_have_no_marker_between() {
    let tree = one_function(8, 2, 6);
    let mut context = TreeContext::new(numbered_lines(8));
    context.margin = 0;
    context.loi_pad = 0;
    context.parent_context = false;
    context.child_context = false;
    context.last_line = false;
    context.init(tree.walk());
    context.add_lois(vec![3, 4, 7]);
    context.add_context();
    assert_eq!(context.format(), "⋮...\n█\n█\n⋮...\n█\n");
}
