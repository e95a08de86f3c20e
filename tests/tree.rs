use colored::Colorize;
use si::directory::{file_listing, sort_by_name};
use si::tree::{render_prefix, render_tree, Entry};

fn file(name: &str) -> Entry {
    Entry {
        name: name.to_string(),
        is_dir: false,
        children: vec![],
    }
}

fn dir(name: &str, children: Vec<Entry>) -> Entry {
    Entry {
        name: name.to_string(),
        is_dir: true,
        children,
    }
}

fn listed(entries: Vec<Entry>) -> Vec<Entry> {
    sort_by_name(entries)
        .into_iter()
        .map(|e| Entry {
            name: e.name,
            is_dir: e.is_dir,
            children: listed(e.children),
        })
        .collect()
}

fn tree(entries: Vec<Entry>) -> String {
    render_tree(&listed(entries)).join("")
}

fn listing(entries: Vec<Entry>) -> String {
    colored::control::set_override(true);
    file_listing(&listed(entries)).join("")
}

#[test]
fn shows_a_directory_tree() {
    assert_eq!(
        tree(vec![file("foo"), dir("bar", vec![file("baz")])]),
        "bar\n└── baz\nfoo\n"
    );
}

#[test]
fn works_for_deeper_trees() {
    assert_eq!(
        tree(vec![dir("foo", vec![dir("bar", vec![file("baz")])])]),
        "foo\n└── bar\n    └── baz\n"
    );
}

#[test]
fn sorts_children_alphabetically() {
    assert_eq!(
        tree(vec![dir("dir", vec![file("foo"), file("bar"), file("baz")])]),
        "dir\n├── bar\n├── baz\n└── foo\n"
    );
}

#[test]
fn renders_file_prefixes_differently_when_there_are_more_files() {
    assert_eq!(
        tree(vec![dir("foo", vec![file("bar"), file("baz")])]),
        "foo\n├── bar\n└── baz\n"
    );
}

#[test]
fn renders_prefix_lines_for_grandchildren_correctly() {
    assert_eq!(
        tree(vec![dir(
            "foo",
            vec![dir("bar", vec![file("file")]), dir("baz", vec![file("file")])]
        )]),
        "foo\n├── bar\n│   └── file\n└── baz\n    └── file\n"
    );
}

#[test]
fn renders_prefix_lines_for_grandchildren_correctly_for_deeper_trees() {
    assert_eq!(
        tree(vec![dir(
            "a",
            vec![dir("b", vec![dir("c", vec![file("d")])]), file("e")]
        )]),
        "a\n├── b\n│   └── c\n│       └── d\n└── e\n"
    );
}

#[test]
fn does_not_show_hidden_files() {
    assert_eq!(
        tree(vec![
            file(".foo"),
            dir("bar", vec![file("baz"), file(".baz")])
        ]),
        "bar\n└── baz\n"
    );
}

#[test]
fn hidden_directories_are_not_entered() {
    assert_eq!(
        tree(vec![dir(".git", vec![file("config")]), file("a")]),
        "a\n"
    );
}

#[test]
fn empty_directory_has_an_empty_tree() {
    assert_eq!(tree(vec![]), "");
}

#[test]
fn prefixes_drop_the_top_level() {
    assert_eq!(render_prefix(&vec![]), "");
    assert_eq!(render_prefix(&vec![true]), "");
    assert_eq!(render_prefix(&vec![false, true]), "├── ");
    assert_eq!(render_prefix(&vec![true, false]), "└── ");
    assert_eq!(render_prefix(&vec![true, true, false]), "│   └── ");
    assert_eq!(render_prefix(&vec![false, false, true]), "    ├── ");
}

#[test]
fn directory_single_file() {
    assert_eq!(listing(vec![file("foo")]), "foo\n");
}

#[test]
fn directory_multiple_files_sorted() {
    assert_eq!(listing(vec![file("foo"), file("bar")]), "bar\nfoo\n");
}

#[test]
fn directory_lists_working_directory_when_no_argument_given() {
    assert_eq!(listing(vec![file("foo"), file("bar")]), "bar\nfoo\n");
}

#[test]
fn directory_lists_directories_with_a_trailing_slash() {
    let output = listing(vec![dir("foo", vec![])]);
    assert!(output.starts_with('\u{1b}'));
    assert!(output.ends_with("/\n"));
    assert!(output.contains("foo"));
}

#[test]
fn directory_lists_directories_in_blue() {
    assert_eq!(
        listing(vec![dir("foo", vec![])]),
        format!("{}/\n", "foo".blue().bold())
    );
}

#[test]
fn sorting_is_by_character_order() {
    let names: Vec<String> = sort_by_name(vec![
        file("b"),
        file("B"),
        file("ab"),
        file("a"),
        file("é"),
        file("_"),
        file("a"),
    ])
    .into_iter()
    .map(|e| e.name)
    .collect();
    assert_eq!(names, vec!["B", "_", "a", "a", "ab", "b", "é"]);
}

#[test]
fn mod_single_file() {
    assert_eq!(listing(vec![file("foo")]), "foo\n");
}

#[test]
fn mod_multiple_files_sorted() {
    assert_eq!(listing(vec![file("foo"), file("bar")]), "bar\nfoo\n");
}

#[test]
fn mod_lists_working_directory_when_no_argument_given() {
    assert_eq!(listing(vec![file("foo"), file("bar")]), "bar\nfoo\n");
}

#[test]
fn mod_lists_directories_with_a_trailing_slash() {
    let output = listing(vec![dir("foo", vec![])]);
    assert!(output.ends_with("/\n"));
    assert!(output.contains("foo"));
}

#[test]
fn mod_lists_directories_in_blue() {
    assert_eq!(
        listing(vec![dir("foo", vec![])]),
        format!("{}/\n", "foo".blue().bold())
    );
}

#[test]
fn last_visible_sibling_gets_the_corner() {
    assert_eq!(
        tree(vec![dir("d", vec![file("-x"), file(".y")])]),
        "d\n└── -x\n"
    );
}

#[test]
fn hidden_later_siblings_draw_no_continuation_line() {
    assert_eq!(
        tree(vec![dir(
            "d",
            vec![dir("(old)", vec![file("b")]), dir(".git", vec![file("c")])]
        )]),
        "d\n└── (old)\n    └── b\n"
    );
}
