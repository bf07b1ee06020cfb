use promptgen::file_item::{FileItem, FoundFile, refresh_files, estimate_tokens,
    normalize_slashes_exec, MAX_FILES};
use promptgen::content::{sniff_is_binary, plan_load, spliced_text, lossy_decode, binary_file_text,
    LoadPlan};

fn found(path: &str, rel: &str, size: u64) -> FoundFile {
    FoundFile { path: String::from(path), rel_path: String::from(rel), size }
}

#[test]
fn refresh_carries_selection_by_absolute_path() {
    let prev = vec![FileItem {
        path: String::from("/r/a.rs"),
        rel_path: String::from("a.rs"),
        selected: true,
        content: Some(String::from("old")),
        token_count: 7,
    }];
    let out = refresh_files(&prev, vec![found("/r/a.rs", "a.rs", 8), found("/r/b.rs", "b.rs", 9)]);
    assert_eq!(out.len(), 2);
    assert!(out[0].selected);
    assert!(!out[1].selected);
    assert!(out[0].content.is_none());
    assert_eq!(out[0].token_count, 2);
    assert_eq!(out[1].token_count, 3);
}

#[test]
fn refresh_defaults_new_and_moved_paths_to_unselected() {
    let prev = vec![FileItem {
        path: String::from("/r/gone.rs"),
        rel_path: String::from("gone.rs"),
        selected: true,
        content: None,
        token_count: 1,
    }];
    let out = refresh_files(&prev, vec![found("/r/new.rs", "new.rs", 4)]);
    assert_eq!(out.len(), 1);
    assert!(!out[0].selected);
}

#[test]
fn estimate_rounds_size_up_by_four() {
    assert_eq!(estimate_tokens(0), 0);
    assert_eq!(estimate_tokens(1), 1);
    assert_eq!(estimate_tokens(4), 1);
    assert_eq!(estimate_tokens(5), 2);
    assert_eq!(estimate_tokens(1024), 256);
}

#[test]
fn display_paths_are_slash_normalized() {
    assert_eq!(normalize_slashes_exec("a\\b\\c.rs"), "a/b/c.rs");
    let out = refresh_files(&Vec::new(), vec![found("/r/a\\b.rs", "a\\b.rs", 1)]);
    assert_eq!(out[0].rel_path, "a/b.rs");
}

#[test]
fn file_cap_constant_is_ten_thousand() {
    assert_eq!(MAX_FILES, 10_000);
}

#[test]
fn nul_byte_marks_binary() {
    assert!(sniff_is_binary(&vec![1u8, 0u8, 2u8]));
    assert!(!sniff_is_binary(&vec![1u8, 2u8, 3u8]));
    assert_eq!(binary_file_text(), "[binary file omitted]\n");
}

#[test]
fn load_plan_follows_sniff_and_size() {
    assert!(matches!(plan_load(&vec![0u8], 10, 100), LoadPlan::Binary));
    assert!(matches!(plan_load(&vec![1u8], 10, 100), LoadPlan::Whole));
    match plan_load(&vec![1u8; 10], 1000, 100) {
        LoadPlan::Split { head_more, tail_start, tail_len } => {
            assert_eq!(head_more, 40);
            assert_eq!(tail_len, 50);
            assert_eq!(tail_start, 950);
        },
        _ => panic!("expected a split"),
    }
}

#[test]
fn splice_keeps_both_ends_within_bounds() {
    // a file of max_bytes + 1000 bytes, loaded as the caller would
    let max_bytes: usize = 200;
    let total = max_bytes + 1000;
    let data: Vec<u8> = (0..total).map(|i| b'a' + (i % 26) as u8).collect();
    let sniff: Vec<u8> = data[..64.min(total)].to_vec();
    match plan_load(&sniff, total as u64, max_bytes) {
        LoadPlan::Split { head_more, tail_start, tail_len } => {
            let head: Vec<u8> = data[sniff.len()..sniff.len() + head_more].to_vec();
            let tail: Vec<u8> = data[tail_start as usize..tail_start as usize + tail_len].to_vec();
            let text = spliced_text(&sniff, &head, &tail);
            assert!(text.contains("[... truncated ...]"));
            // a recognizable head fragment and tail fragment
            let head_frag: String = data[..8].iter().map(|&b| b as char).collect();
            let tail_frag: String = data[total - 8..].iter().map(|&b| b as char).collect();
            assert!(text.starts_with(&head_frag));
            assert!(text.ends_with(&tail_frag));
            assert!(text.len() <= max_bytes + "\n[... truncated ...]\n".len());
        },
        _ => panic!("expected a split"),
    }
}

#[test]
fn lossy_decoding_replaces_invalid_bytes() {
    let out = lossy_decode(&vec![b'h', b'i', 0xFF]);
    assert!(out.starts_with("hi"));
    assert!(out.contains('\u{FFFD}'));
}
