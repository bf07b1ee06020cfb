use promptgen::file_item::FileItem;
use promptgen::prompt_builder::{cdata_wrap, escape_xml_attr, assemble_document, extract_text};
use promptgen::token_count::count_tokens;

fn item(rel: &str, selected: bool, content: Option<&str>) -> FileItem {
    FileItem {
        path: format!("/root/{}", rel),
        rel_path: String::from(rel),
        selected,
        content: content.map(String::from),
        token_count: 0,
    }
}

/// A plain reading of wrapped character data: the concatenated bodies of
/// the sections.
fn decode_cdata(mut d: &str) -> Option<String> {
    let mut out = String::new();
    while !d.is_empty() {
        d = d.strip_prefix("<![CDATA[")?;
        let end = d.find("]]>")?;
        out.push_str(&d[..end]);
        d = &d[end + 3..];
    }
    Some(out)
}

#[test]
fn cdata_wraps_plain_text() {
    assert_eq!(cdata_wrap("hi"), "<![CDATA[hi]]>");
    assert_eq!(cdata_wrap(""), "<![CDATA[]]>");
}

#[test]
fn cdata_splits_embedded_closing_marker() {
    assert_eq!(cdata_wrap("a]]>b"), "<![CDATA[a]]]]><![CDATA[>b]]>");
}

#[test]
fn cdata_round_trips_content_with_marker() {
    for s in ["a]]>b", "]]>", "x]]>]]>y", "]]", "]]>t]]", "plain"] {
        let wrapped = cdata_wrap(s);
        assert_eq!(decode_cdata(&wrapped).unwrap(), s);
    }
}

#[test]
fn attribute_escaping_covers_the_five() {
    assert_eq!(escape_xml_attr("a&<>\"'b"), "a&amp;&lt;&gt;&quot;&apos;b");
    assert_eq!(escape_xml_attr("plain"), "plain");
}

#[test]
fn selected_files_emit_in_path_order() {
    let files = vec![item("b.txt", true, Some("bee")), item("a.txt", true, Some("ay"))];
    let doc = assemble_document(
        &String::from("sys"),
        &String::from("inst"),
        &String::from("tree"),
        &files,
        &String::from("cmd"),
        &String::from("out"),
    );
    let a = doc.find("a.txt").unwrap();
    let b = doc.find("b.txt").unwrap();
    assert!(a < b);
    assert!(doc.contains("<file path=\"a.txt\"><![CDATA[ay]]></file>"));
    assert!(doc.contains("<file path=\"b.txt\"><![CDATA[bee]]></file>"));
}

#[test]
fn unselected_files_are_left_out() {
    let files = vec![item("a.txt", false, Some("ay")), item("b.txt", true, Some("bee"))];
    let doc = assemble_document(
        &String::from("s"),
        &String::from("i"),
        &String::from("t"),
        &files,
        &String::from(""),
        &String::from(""),
    );
    assert!(!doc.contains("a.txt"));
    assert!(doc.contains("b.txt"));
}

#[test]
fn instruction_appears_exactly_twice() {
    let files: Vec<FileItem> = Vec::new();
    let doc = assemble_document(
        &String::from("sys"),
        &String::from("hi"),
        &String::from(""),
        &files,
        &String::from(""),
        &String::from(""),
    );
    let occurrences = doc.matches("<instruction><![CDATA[hi]]></instruction>").count();
    assert_eq!(occurrences, 2);
    assert!(doc.starts_with("<system_prompt>\n<![CDATA[sys]]>\n</system_prompt>\n"));
}

#[test]
fn section_order_is_fixed() {
    let files: Vec<FileItem> = Vec::new();
    let doc = assemble_document(
        &String::from("s"),
        &String::from("i"),
        &String::from("t"),
        &files,
        &String::from("c"),
        &String::from("o"),
    );
    let order = [
        "<system_prompt>",
        "<instruction>",
        "<file_tree>",
        "<code>",
        "<terminal_command>",
        "<terminal_output>",
    ];
    let mut pos = 0;
    for tag in order {
        let at = doc[pos..].find(tag).unwrap();
        pos += at + tag.len();
    }
}

#[test]
fn token_count_is_one_per_three_chars() {
    assert_eq!(count_tokens(""), 0);
    assert_eq!(count_tokens("ab"), 0);
    assert_eq!(count_tokens("abc"), 1);
    assert_eq!(count_tokens("abcdefg"), 2);
}

#[test]
fn html_becomes_plain_text() {
    let out = extract_text("<html><body><p>hello world</p></body></html>").unwrap();
    assert!(out.contains("hello world"));
    assert!(!out.contains("<p>"));
}
