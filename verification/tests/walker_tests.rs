use promptgen::ignore::compile_rules;
use promptgen::walker::{walk_start, next_dir, process_dir, DirEntry, EntryKind};

fn entry(name: &str, kind: EntryKind) -> DirEntry {
    DirEntry { name: String::from(name), kind }
}

#[test]
fn walk_collects_files_and_skips_symlinks() {
    let rules = compile_rules(Some(&String::new())).unwrap();
    let mut st = walk_start(100);
    let root = next_dir(&mut st, &rules).unwrap();
    assert_eq!(root, "");
    let entries = vec![
        entry("a.rs", EntryKind::File),
        entry("link", EntryKind::Symlink),
        entry("src", EntryKind::Dir),
    ];
    process_dir(&mut st, &rules, &root, &entries);
    let sub = next_dir(&mut st, &rules).unwrap();
    assert_eq!(sub, "src");
    let entries = vec![entry("b.rs", EntryKind::File)];
    process_dir(&mut st, &rules, &sub, &entries);
    assert!(next_dir(&mut st, &rules).is_none());
    assert_eq!(st.files, vec![String::from("a.rs"), String::from("src/b.rs")]);
    assert_eq!(st.scanned_files, 2);
    assert_eq!(st.symlinks_skipped, 1);
    assert_eq!(st.ignored_files, 0);
    assert_eq!(st.ignored_dirs, 0);
    assert!(!st.truncated);
}

#[test]
fn symlinked_subdirectory_never_followed() {
    // a symlink pointing back up the tree: it is counted, never visited
    let rules = compile_rules(Some(&String::new())).unwrap();
    let mut st = walk_start(100);
    let root = next_dir(&mut st, &rules).unwrap();
    let entries = vec![entry("loop", EntryKind::Symlink), entry("d", EntryKind::Dir)];
    process_dir(&mut st, &rules, &root, &entries);
    // only the real directory is pending; the cycle cannot occur
    let d = next_dir(&mut st, &rules).unwrap();
    assert_eq!(d, "d");
    let entries = vec![entry("loop", EntryKind::Symlink)];
    process_dir(&mut st, &rules, &d, &entries);
    assert!(next_dir(&mut st, &rules).is_none());
    assert_eq!(st.symlinks_skipped, 2);
    assert_eq!(st.scanned_files, 0);
    assert_eq!(st.files.len(), 0);
}

#[test]
fn cap_stops_mid_directory_and_is_signaled() {
    let rules = compile_rules(Some(&String::new())).unwrap();
    let mut st = walk_start(2);
    let root = next_dir(&mut st, &rules).unwrap();
    let entries = vec![
        entry("a", EntryKind::File),
        entry("b", EntryKind::File),
        entry("c", EntryKind::File),
    ];
    process_dir(&mut st, &rules, &root, &entries);
    assert_eq!(st.files.len(), 2);
    assert!(st.truncated);
    assert_eq!(st.scanned_files, 2);
    assert!(next_dir(&mut st, &rules).is_none());
}

#[test]
fn ignored_directory_prunes_whole_subtree_once() {
    let text = String::from("build/\n");
    let rules = compile_rules(Some(&text)).unwrap();
    let mut st = walk_start(100);
    let root = next_dir(&mut st, &rules).unwrap();
    let entries = vec![
        entry("build", EntryKind::Dir),
        entry("keep", EntryKind::Dir),
        entry("build", EntryKind::File),
    ];
    process_dir(&mut st, &rules, &root, &entries);
    assert_eq!(st.ignored_dirs, 1);
    // the plain file named like the directory rule is kept
    assert_eq!(st.files, vec![String::from("build")]);
    let d = next_dir(&mut st, &rules).unwrap();
    assert_eq!(d, "keep");
}

#[test]
fn ignored_files_are_counted_and_dropped() {
    let text = String::from("*.tmp\n");
    let rules = compile_rules(Some(&text)).unwrap();
    let mut st = walk_start(100);
    let root = next_dir(&mut st, &rules).unwrap();
    let entries = vec![entry("x.tmp", EntryKind::File), entry("y.rs", EntryKind::File)];
    process_dir(&mut st, &rules, &root, &entries);
    assert_eq!(st.scanned_files, 2);
    assert_eq!(st.ignored_files, 1);
    assert_eq!(st.files, vec![String::from("y.rs")]);
}
