use promptkit::records::FileDump;
use promptkit::tree::build_file_tree;
use promptkit::tree::build_tree;
use promptkit::tree::render_tree;
use promptkit::tree::show_tree;
use promptkit::tree::TreeNode;

fn files(paths: &[&str]) -> Vec<FileDump> {
    paths
        .iter()
        .map(|p| FileDump { relative_path: p.to_string(), contents: String::new() })
        .collect()
}

fn rendered(node: &TreeNode, prefix: &str) -> Vec<String> {
    let mut lines = Vec::new();
    render_tree(node, prefix, &mut lines);
    lines
}

#[test]
fn nested_files_are_shown_below_their_directory() {
    let text = build_file_tree(&files(&["a/b.txt", "a/c.txt", "d.txt"]));
    assert_eq!(text, ".\n|-- a/\n|   |-- b.txt\n|   `-- c.txt\n`-- d.txt");
}

#[test]
fn no_files_give_the_root_line_alone() {
    assert_eq!(build_file_tree(&[]), ".");
    assert_eq!(show_tree(&TreeNode::new()), ".");
}

#[test]
fn an_empty_node_renders_no_lines() {
    assert_eq!(rendered(&TreeNode::new(), ""), Vec::<String>::new());
}

#[test]
fn children_are_listed_by_name_not_by_arrival() {
    let text = build_file_tree(&files(&["z.txt", "m/x", "a.txt", "m/a"]));
    assert_eq!(text, ".\n|-- a.txt\n|-- m/\n|   |-- a\n|   `-- x\n`-- z.txt");
}

#[test]
fn names_are_ordered_by_their_bytes() {
    let text = build_file_tree(&files(&["b", "B", "a", "é", "_", "10", "9"]));
    assert_eq!(text, ".\n|-- 10\n|-- 9\n|-- B\n|-- _\n|-- a\n|-- b\n`-- é");
}

#[test]
fn the_last_child_indents_with_blanks() {
    let text = build_file_tree(&files(&["a/b/c/d.txt"]));
    assert_eq!(text, ".\n`-- a/\n    `-- b/\n        `-- c/\n            `-- d.txt");
}

#[test]
fn bars_continue_below_children_that_are_not_last() {
    let text = build_file_tree(&files(&["a/b/c", "a/d", "e"]));
    assert_eq!(text, ".\n|-- a/\n|   |-- b/\n|   |   `-- c\n|   `-- d\n`-- e");
}

#[test]
fn a_path_put_in_twice_is_shown_once() {
    let text = build_file_tree(&files(&["a/b", "a/b", "c", "c"]));
    assert_eq!(text, ".\n|-- a/\n|   `-- b\n`-- c");
}

#[test]
fn a_name_that_is_file_and_directory_has_no_slash() {
    let text = build_file_tree(&files(&["a", "a/b"]));
    assert_eq!(text, ".\n`-- a\n    `-- b");
    let other_way = build_file_tree(&files(&["a/b", "a"]));
    assert_eq!(other_way, text);
}

#[test]
fn a_file_with_an_empty_path_is_not_shown() {
    assert_eq!(build_file_tree(&files(&["", "x"])), ".\n`-- x");
}

#[test]
fn a_path_outside_the_root_starts_at_the_root_component() {
    let text = build_file_tree(&files(&["/abs/file.txt"]));
    assert_eq!(text, ".\n`-- //\n    `-- abs/\n        `-- file.txt");
}

#[test]
fn insert_makes_the_directories_on_the_way() {
    let mut root = TreeNode::new();
    root.insert(&["src", "lib", "mod.rs"]);
    root.insert(&["src", "main.rs"]);
    assert_eq!(
        rendered(&root, ""),
        vec!["`-- src/", "    |-- lib/", "    |   `-- mod.rs", "    `-- main.rs"]
    );
}

#[test]
fn insert_of_no_components_changes_nothing() {
    let mut root = TreeNode::new();
    root.insert(&[]);
    assert_eq!(rendered(&root, ""), Vec::<String>::new());
    root.insert(&["a"]);
    root.insert(&[]);
    assert_eq!(rendered(&root, ""), vec!["`-- a"]);
}

#[test]
fn insert_is_independent_of_order() {
    let mut one = TreeNode::new();
    one.insert(&["b", "y"]);
    one.insert(&["a"]);
    one.insert(&["b", "x"]);
    let mut other = TreeNode::new();
    other.insert(&["b", "x"]);
    other.insert(&["b", "y"]);
    other.insert(&["a"]);
    assert_eq!(rendered(&one, ""), rendered(&other, ""));
    assert_eq!(rendered(&one, ""), vec!["|-- a", "`-- b/", "    |-- x", "    `-- y"]);
}

#[test]
fn render_appends_and_indents_by_the_prefix() {
    let mut root = TreeNode::new();
    root.insert(&["a", "b"]);
    root.insert(&["c"]);
    let mut lines = vec!["kept".to_string()];
    render_tree(&root, "> ", &mut lines);
    assert_eq!(lines, vec!["kept", "> |-- a/", "> |   `-- b", "> `-- c"]);
}

#[test]
fn build_tree_and_show_tree_make_build_file_tree() {
    let list = files(&["x/y", "x/z", "w"]);
    assert_eq!(show_tree(&build_tree(&list)), build_file_tree(&list));
}

#[test]
fn many_children_keep_their_order() {
    let names: Vec<String> = (0..200).rev().map(|i| format!("f{:03}", i)).collect();
    let list: Vec<FileDump> = names
        .iter()
        .map(|n| FileDump { relative_path: format!("d/{}", n), contents: String::new() })
        .collect();
    let text = build_file_tree(&list);
    let lines: Vec<&str> = text.lines().collect();
    assert_eq!(lines.len(), 202);
    assert_eq!(lines[1], "`-- d/");
    assert_eq!(lines[2], "    |-- f000");
    assert_eq!(lines[200], "    |-- f198");
    assert_eq!(lines[201], "    `-- f199");
}

#[test]
fn the_default_node_is_the_empty_one() {
    assert_eq!(show_tree(&TreeNode::default()), ".");
}
