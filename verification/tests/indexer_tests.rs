use promptgen::code_indexer::{CodeSnippet, parse_snippets, generate_prompt_from_snippets};

#[test]
fn json_result_lines_become_snippets() {
    let output = "{\"file\":\"src/a.rs\",\"line\":12,\"match\":\"fn a() {}\"}\n\
                  not json\n\
                  {\"file\":\"b.rs\",\"line\":3,\"match\":\"x\"}\n";
    let snippets = parse_snippets(output);
    assert_eq!(snippets.len(), 2);
    assert_eq!(snippets[0].file, "src/a.rs");
    assert_eq!(snippets[0].line, 12);
    assert_eq!(snippets[0].snippet, "fn a() {}");
    assert_eq!(snippets[1].file, "b.rs");
    assert_eq!(snippets[1].line, 3);
}

#[test]
fn missing_fields_read_as_defaults() {
    let snippets = parse_snippets("{\"line\":7}");
    assert_eq!(snippets.len(), 1);
    assert_eq!(snippets[0].file, "");
    assert_eq!(snippets[0].line, 7);
    assert_eq!(snippets[0].snippet, "");
}

#[test]
fn prompt_presents_each_snippet_then_the_query() {
    let snippets = vec![CodeSnippet {
        file: String::from("m.rs"),
        line: 4,
        snippet: String::from("let x = 1;"),
    }];
    let prompt = generate_prompt_from_snippets("what is x?", &snippets);
    let expected = "Here are some relevant code snippets from your codebase:\n\n\
                    File: m.rs (line 4):\n\
                    ```\n\
                    let x = 1;\n\
                    ```\n\n\
                    User Query:\nwhat is x?";
    assert_eq!(prompt, expected);
}
