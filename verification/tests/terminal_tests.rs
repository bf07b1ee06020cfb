use promptgen::command_runner::{Terminal, get_head_and_tail, parse_terminal_command,
    add_to_history, ParsedCommand};
use promptgen::comments::strip_comments;
use promptgen::system_prompt::{choose_system_prompt, PromptCandidate};
use promptgen::preview::approx_token_total;
use promptgen::remote::{Remote, RemoteUrl, RemoteUpdate, add_url, apply_update, remove_url};
use promptgen::file_item::FileItem;

#[test]
fn terminal_defaults() {
    let t = Terminal::default();
    assert_eq!(t.head_lines, 1000);
    assert_eq!(t.tail_lines, 1000);
    assert_eq!(t.timeout_secs, 25);
    assert_eq!(t.max_history, 50);
    assert!(t.history.is_empty());
    assert!(!t.is_running);
}

#[test]
fn head_and_tail_keeps_short_output_whole() {
    let out = get_head_and_tail(2, 2, "a\nb\nc");
    assert_eq!(out, "a\nb\nc\n");
}

#[test]
fn head_and_tail_truncates_the_middle() {
    let out = get_head_and_tail(2, 2, "1\n2\n3\n4\n5\n6\n");
    assert_eq!(out, "1\n2\n[... output truncated ...]\n5\n6\n");
}

#[test]
fn command_parsing_peels_env_overrides() {
    match parse_terminal_command("FOO=1 _BAR=two echo hi there") {
        ParsedCommand::Run { env, program, args } => {
            assert_eq!(env.len(), 2);
            assert_eq!(env[0].key, "FOO");
            assert_eq!(env[0].value, "1");
            assert_eq!(env[1].key, "_BAR");
            assert_eq!(env[1].value, "two");
            assert_eq!(program, "echo");
            assert_eq!(args, vec![String::from("hi"), String::from("there")]);
        },
        _ => panic!("expected a runnable command"),
    }
}

#[test]
fn command_parsing_respects_quotes() {
    match parse_terminal_command("echo 'a b' c") {
        ParsedCommand::Run { env, program, args } => {
            assert!(env.is_empty());
            assert_eq!(program, "echo");
            assert_eq!(args, vec![String::from("a b"), String::from("c")]);
        },
        _ => panic!("expected a runnable command"),
    }
}

#[test]
fn command_parsing_error_cases() {
    match parse_terminal_command("echo 'unclosed") {
        ParsedCommand::Invalid { message } => assert!(!message.is_empty()),
        _ => panic!("expected a parse failure"),
    }
    assert!(matches!(parse_terminal_command(""), ParsedCommand::Empty));
    assert!(matches!(parse_terminal_command("FOO=1"), ParsedCommand::MissingProgram));
    // an invalid key is no override: it becomes the program
    match parse_terminal_command("2BAD=1 echo") {
        ParsedCommand::Run { env, program, .. } => {
            assert!(env.is_empty());
            assert_eq!(program, "2BAD=1");
        },
        _ => panic!("expected a runnable command"),
    }
}

#[test]
fn history_is_recent_first_deduplicated_and_capped() {
    let mut t = Terminal::default();
    t.max_history = 3;
    add_to_history(&mut t, "one");
    add_to_history(&mut t, "two");
    add_to_history(&mut t, "one ");
    assert_eq!(t.history, vec![String::from("one"), String::from("two")]);
    add_to_history(&mut t, "three");
    add_to_history(&mut t, "four");
    assert_eq!(
        t.history,
        vec![String::from("four"), String::from("three"), String::from("one")],
    );
    add_to_history(&mut t, "   ");
    assert_eq!(t.history.len(), 3);
}

#[test]
fn comments_are_stripped_outside_strings() {
    let out = strip_comments("let a = 1; // note\nlet s = \"x // y\"; # trail\n\n# gone\nkeep");
    assert_eq!(out, "let a = 1;\nlet s = \"x // y\";\nkeep");
}

#[test]
fn system_prompt_priority_and_message() {
    let proj = PromptCandidate { path: String::from("/p/.prompt/system_prompt.txt"), is_file: true };
    let envc = PromptCandidate { path: String::from("/e/sp.txt"), is_file: true };
    let fall = PromptCandidate { path: String::from("/d/sp.txt"), is_file: false };
    assert_eq!(choose_system_prompt(Some(&proj), Some(&envc), &fall).unwrap(), proj.path);
    let proj_missing = PromptCandidate { path: proj.path.clone(), is_file: false };
    assert_eq!(choose_system_prompt(Some(&proj_missing), Some(&envc), &fall).unwrap(), envc.path);
    let envc_missing = PromptCandidate { path: envc.path.clone(), is_file: false };
    let err = choose_system_prompt(Some(&proj_missing), Some(&envc_missing), &fall).unwrap_err();
    assert_eq!(
        err,
        "System prompt not found. Tried: /p/.prompt/system_prompt.txt, /e/sp.txt, /d/sp.txt",
    );
}

#[test]
fn preview_counts_instruction_twice() {
    let files = vec![FileItem {
        path: String::from("/r/ab.rs"),
        rel_path: String::from("ab.rs"),
        selected: true,
        content: None,
        token_count: 10,
    }];
    let remotes = vec![RemoteUrl {
        url: String::from("http://x"),
        content: Some(String::from("12345678")),
        included: true,
    }];
    // instruction: 4 chars -> 1 token, twice; tree: 5+4+16=25 chars -> 7;
    // selected: 10; remote: 8 chars -> 2
    let total = approx_token_total("abcd", true, &files, &remotes);
    assert_eq!(total, 1 + 7 + 10 + 2 + 1);
    let without_tree = approx_token_total("abcd", false, &files, &remotes);
    assert_eq!(without_tree, 1 + 10 + 2 + 1);
}

#[test]
fn remote_sources_fill_in_asynchronously() {
    let mut r = Remote::default();
    assert!(add_url(&mut r).is_none());
    r.new_url = String::from("http://a");
    let idx = add_url(&mut r).unwrap();
    assert_eq!(idx, 0);
    assert_eq!(r.new_url, "");
    assert!(r.remote_urls[0].content.is_none());
    assert!(!r.remote_urls[0].included);
    apply_update(&mut r, RemoteUpdate::Fetched { index: 0, content: String::from("text") });
    assert_eq!(r.remote_urls[0].content.as_deref(), Some("text"));
    // a result for a removed source is dropped
    apply_update(&mut r, RemoteUpdate::Fetched { index: 9, content: String::from("x") });
    assert_eq!(r.remote_urls.len(), 1);
    assert!(remove_url(&mut r, 0));
    assert!(!remove_url(&mut r, 0));
}
