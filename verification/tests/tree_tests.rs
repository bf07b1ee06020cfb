use promptgen::file_item::FileItem;
use promptgen::file_tree::{build_file_tree, sort_file_tree, set_folder_selection, subtree_tokens,
    get_folder_selection_counts, generate_tree_string, generate_file_tree_string};

fn item(rel: &str, selected: bool, tokens: usize) -> FileItem {
    FileItem {
        path: format!("/root/{}", rel),
        rel_path: String::from(rel),
        selected,
        content: None,
        token_count: tokens,
    }
}

#[test]
fn build_groups_by_path_components() {
    let files = vec![item("a/x.rs", false, 1), item("a/y.rs", false, 2), item("z.txt", false, 3)];
    let tree = build_file_tree(&files);
    assert_eq!(tree.files, vec![2]);
    assert_eq!(tree.folders.len(), 1);
    assert_eq!(tree.folders[0].name, "a");
    assert_eq!(tree.folders[0].tree.files, vec![0, 1]);
}

#[test]
fn build_adds_no_empty_folder_nodes() {
    let files = vec![item("a/b.txt", false, 1), item("c.txt", false, 1)];
    let tree = build_file_tree(&files);
    assert_eq!(tree.files, vec![1]);
    assert_eq!(tree.folders.len(), 1);
    assert_eq!(tree.folders[0].name, "a");
    assert_eq!(tree.folders[0].tree.files, vec![0]);
    assert!(tree.folders[0].tree.folders.is_empty());
}

#[test]
fn folder_names_come_out_alphabetical() {
    let files = vec![item("b/x.rs", false, 1), item("a/y.rs", false, 1), item("c/z.rs", false, 1)];
    let tree = build_file_tree(&files);
    let names: Vec<&str> = tree.folders.iter().map(|f| f.name.as_str()).collect();
    assert_eq!(names, vec!["a", "b", "c"]);
}

#[test]
fn render_lists_folders_then_files_with_connectors() {
    let files = vec![item("a/x.rs", false, 1), item("b/y.rs", false, 1), item("z.txt", false, 1)];
    let out = generate_file_tree_string(&files, "r");
    let expected = "r/\n\
                    ├─ a\n\
                    │   └─ x.rs\n\
                    ├─ b\n\
                    │   └─ y.rs\n\
                    └─ z.txt\n";
    assert_eq!(out, expected);
}

#[test]
fn render_sorts_files_by_basename() {
    let files = vec![item("b.txt", false, 1), item("a.txt", false, 1)];
    let mut tree = build_file_tree(&files);
    sort_file_tree(&mut tree, &files);
    assert_eq!(tree.files, vec![1, 0]);
    let out = generate_tree_string(&tree, &files, String::new());
    assert_eq!(out, "├─ a.txt\n└─ b.txt\n");
}

#[test]
fn last_sibling_prefix_uses_spaces() {
    let files = vec![item("a/x.rs", false, 1)];
    let out = generate_file_tree_string(&files, "r");
    assert_eq!(out, "r/\n└─ a\n    └─ x.rs\n");
}

#[test]
fn subtree_tokens_sums_recursively() {
    let files = vec![item("a/x.rs", false, 10), item("a/b/y.rs", false, 20), item("z.txt", false, 5)];
    let tree = build_file_tree(&files);
    assert_eq!(subtree_tokens(&tree, &files), 35);
    assert_eq!(subtree_tokens(&tree.folders[0].tree, &files), 30);
}

#[test]
fn selection_counts_total_and_selected() {
    let files = vec![item("a/x.rs", true, 1), item("a/y.rs", false, 1), item("z.txt", true, 1)];
    let tree = build_file_tree(&files);
    let (total, sel) = get_folder_selection_counts(&tree, &files);
    assert_eq!(total, 3);
    assert_eq!(sel, 2);
    let (ftotal, fsel) = get_folder_selection_counts(&tree.folders[0].tree, &files);
    assert_eq!(ftotal, 2);
    assert_eq!(fsel, 1);
}

#[test]
fn set_folder_selection_touches_only_the_subtree() {
    let mut files = vec![item("a/x.rs", false, 1), item("a/y.rs", false, 1), item("z.txt", false, 1)];
    let tree = build_file_tree(&files);
    let sub = &tree.folders[0].tree;
    set_folder_selection(sub, &mut files, true);
    assert!(files[0].selected);
    assert!(files[1].selected);
    assert!(!files[2].selected);
    set_folder_selection(sub, &mut files, false);
    assert!(!files[0].selected);
    assert!(!files[1].selected);
}
