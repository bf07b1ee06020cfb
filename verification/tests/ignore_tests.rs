use promptgen::ignore::compile_rules;

#[test]
fn bare_name_matches_file_dir_and_contents() {
    let text = String::from("foo\n");
    let rules = compile_rules(Some(&text)).unwrap();
    assert!(rules.is_ignored_file("foo"));
    assert!(rules.is_ignored_file("sub/dir/foo"));
    assert!(rules.is_ignored_file("sub/dir/foo/innerfile"));
    assert!(rules.is_ignored_dir("sub/dir/foo"));
    assert!(!rules.is_ignored_file("foobar"));
}

#[test]
fn directory_rule_spares_plain_file() {
    let text = String::from("build/\n");
    let rules = compile_rules(Some(&text)).unwrap();
    assert!(!rules.is_ignored_file("build"));
    assert!(rules.is_ignored_dir("build"));
    assert!(rules.is_ignored_file("build/out.o"));
    assert!(rules.is_ignored_dir("x/build"));
    assert!(rules.is_ignored_file("x/build/y"));
    assert!(!rules.is_ignored_file("x/buildfile"));
}

#[test]
fn comments_and_blank_lines_are_skipped() {
    let text = String::from("# a comment\n\n   \nfoo\n");
    let rules = compile_rules(Some(&text)).unwrap();
    assert!(rules.is_ignored_file("foo"));
    assert!(!rules.is_ignored_file("a"));
    assert!(!rules.is_ignored_file("comment"));
}

#[test]
fn default_rules_when_no_file() {
    let rules = compile_rules(None).unwrap();
    assert!(rules.is_ignored_dir("target"));
    assert!(rules.is_ignored_file("target/debug/app"));
    assert!(rules.is_ignored_dir(".git"));
    assert!(rules.is_ignored_dir("node_modules"));
    assert!(rules.is_ignored_file("a/b/x.tmp"));
    assert!(!rules.is_ignored_file("src/main.rs"));
    // the default directory rules do not swallow plain files of the name
    assert!(!rules.is_ignored_file("target"));
}

#[test]
fn path_rule_is_anchored_at_any_depth() {
    let text = String::from("gen/out\n");
    let rules = compile_rules(Some(&text)).unwrap();
    assert!(rules.is_ignored_file("gen/out"));
    assert!(rules.is_ignored_file("a/gen/out"));
    assert!(!rules.is_ignored_file("gen/out2"));
}

#[test]
fn basename_glob_matches_at_any_depth() {
    let text = String::from("*.tmp\n");
    let rules = compile_rules(Some(&text)).unwrap();
    assert!(rules.is_ignored_file("x.tmp"));
    assert!(rules.is_ignored_file("a/b/x.tmp"));
    assert!(!rules.is_ignored_file("x.tmp2"));
}

#[test]
fn malformed_pattern_is_skipped_alone() {
    let text = String::from("a[\nfoo\n");
    let rules = compile_rules(Some(&text)).unwrap();
    assert!(rules.is_ignored_file("foo"));
    assert!(!rules.is_ignored_file("a"));
}

#[test]
fn trailing_slashes_collapse() {
    let text = String::from("cache///\n");
    let rules = compile_rules(Some(&text)).unwrap();
    assert!(rules.is_ignored_dir("cache"));
    assert!(rules.is_ignored_file("cache/x"));
    assert!(!rules.is_ignored_file("cache"));
}
