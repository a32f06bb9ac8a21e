use tree_context::listing::entry_line;

#[test]
fn root_of_a_listing_stands_bare() {
    assert_eq!(entry_line(&vec![], "src"), "src");
    assert_eq!(entry_line(&vec![], ""), "");
}

#[test]
fn entry_has_a_branch_or_a_corner() {
    assert_eq!(entry_line(&vec![false], "lib.rs"), "├── lib.rs");
    assert_eq!(entry_line(&vec![true], "main.rs"), "└── main.rs");
}

#[test]
fn entry_is_indented_below_its_ancestors() {
    assert_eq!(entry_line(&vec![false, true], "a"), "│   └── a");
    assert_eq!(entry_line(&vec![true, false], "b"), "    ├── b");
    assert_eq!(entry_line(&vec![false, true, false, true], "c"), "│       │   └── c");
}
