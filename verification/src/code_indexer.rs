//! Code-search snippets: the search tool's JSON output, one result per
//! line, is parsed into snippets, and a prompt is generated from them
//! together with the user's query. Running the search tool itself is the
//! caller's work.

use vstd::prelude::*;
use crate::strutil::{str_to_chars, chars_to_string, split_lines, lines_of, dec_str, dec_chars};

verus! {

/// A code snippet found in the codebase.
#[derive(Debug)]
pub struct CodeSnippet {
    pub file: String,
    pub line: usize,
    pub snippet: String,
}

/// What one JSON result line holds: its `file`, `line` and `match`
/// fields (absent fields read as empty or zero), or nothing for a line
/// that is not a JSON value.
pub uninterp spec fn snippet_fields_of(line: Seq<char>) -> Option<(Seq<char>, u64, Seq<char>)>;

/// Relies on `serde_json::from_str` and `serde_json::Value`'s accessors:
/// parsing and field lookup are pure functions of the line.
#[verifier::external_body]
fn snippet_fields(line: &str) -> (r: Option<(String, u64, String)>)
    ensures
        match r {
            Some(t) => snippet_fields_of(line@) == Some((t.0@, t.1, t.2@)),
            None => snippet_fields_of(line@) is None,
        },
{
    let v: serde_json::Value = serde_json::from_str(line).ok()?;
    let file = v.get("file").and_then(|x| x.as_str()).unwrap_or("").to_string();
    let line_number = v.get("line").and_then(|x| x.as_u64()).unwrap_or(0);
    let snippet = v.get("match").and_then(|x| x.as_str()).unwrap_or("").to_string();
    Some((file, line_number, snippet))
}

/// The fields of the lines that parse, in order.
pub open spec fn snippets_of(lines: Seq<Seq<char>>, i: int) -> Seq<(Seq<char>, u64, Seq<char>)>
    decreases lines.len() - i,
{
    if i < 0 || i >= lines.len() {
        Seq::empty()
    } else {
        (match snippet_fields_of(lines[i]) {
            Some(t) => seq![t],
            None => Seq::empty(),
        }) + snippets_of(lines, i + 1)
    }
}

pub open spec fn snippet_matches(s: CodeSnippet, t: (Seq<char>, u64, Seq<char>)) -> bool {
    s.file@ == t.0 && s.line == t.1 as usize && s.snippet@ == t.2
}

/// Parses the search tool's output, one JSON result per line; lines that
/// do not parse are skipped.
pub fn parse_snippets(output: &str) -> (r: Vec<CodeSnippet>)
    ensures
        r@.len() == snippets_of(lines_of(output@), 0).len(),
        forall|i: int|
            0 <= i < r@.len() ==> snippet_matches(
                #[trigger] r@[i],
                snippets_of(lines_of(output@), 0)[i],
            ),
{
    let cv = str_to_chars(output);
    let lines = split_lines(&cv);
    let ghost lv = lines_of(output@);
    let ghost goal = snippets_of(lv, 0);
    let mut r: Vec<CodeSnippet> = Vec::new();
    let mut i: usize = 0;
    proof {
        assert(lines.deep_view() == lv);
    }
    while i < lines.len()
        invariant
            i <= lines@.len(),
            lines.deep_view() == lv,
            lv.len() == lines@.len(),
            goal == snippets_of(lv, 0),
            r@.len() as int + snippets_of(lv, i as int).len() == goal.len(),
            goal.skip(r@.len() as int) == snippets_of(lv, i as int),
            forall|k: int| 0 <= k < r@.len() ==> snippet_matches(#[trigger] r@[k], goal[k]),
        decreases lines.len() - i,
    {
        proof {
            assert(lines@[i as int]@ == lv[i as int]);
        }
        let line = chars_to_string(&lines[i]);
        let ghost pre_len = r@.len() as int;
        let ghost cur = snippets_of(lv, i as int);
        match snippet_fields(line.as_str()) {
            Some(t) => {
                proof {
                    assert(cur =~= seq![(t.0@, t.1, t.2@)] + snippets_of(lv, i as int + 1));
                    assert(cur.len() >= 1);
                    assert(pre_len < goal.len());
                    assert(goal[pre_len] == goal.skip(pre_len)[0]);
                    assert(goal[pre_len] == (t.0@, t.1, t.2@));
                }
                let (file, num, snip) = t;
                let line_number = #[verifier::truncate] (num as usize);
                r.push(CodeSnippet { file, line: line_number, snippet: snip });
                proof {
                    assert(goal.skip(pre_len).drop_first() =~= goal.skip(pre_len + 1));
                    assert(cur.drop_first() =~= snippets_of(lv, i as int + 1));
                }
            },
            None => {
                proof {
                    assert(cur =~= snippets_of(lv, i as int + 1));
                }
            },
        }
        i = i + 1;
    }
    proof {
        assert(snippets_of(lv, lv.len() as int) =~= Seq::<(Seq<char>, u64, Seq<char>)>::empty());
    }
    r
}

/// One snippet's section in the generated prompt.
pub open spec fn snippet_sections(sn: Seq<CodeSnippet>, i: int) -> Seq<char>
    decreases sn.len() - i,
{
    if i < 0 || i >= sn.len() {
        Seq::empty()
    } else {
        "File: "@ + sn[i].file@ + " (line "@ + dec_str(sn[i].line as nat) + "):\n"@ + "```\n"@
            + sn[i].snippet@ + "\n```\n\n"@ + snippet_sections(sn, i + 1)
    }
}

/// The prompt generated from a query and its snippets.
pub open spec fn prompt_of(query: Seq<char>, sn: Seq<CodeSnippet>) -> Seq<char> {
    "Here are some relevant code snippets from your codebase:\n\n"@ + snippet_sections(sn, 0)
        + "User Query:\n"@ + query
}

/// Generates a prompt that presents each snippet with its location and
/// then the user's query.
pub fn generate_prompt_from_snippets(query: &str, snippets: &Vec<CodeSnippet>) -> (r: String)
    ensures
        r@ == prompt_of(query@, snippets@),
{
    let mut out: Vec<char> = str_to_chars(
        "Here are some relevant code snippets from your codebase:\n\n",
    );
    let ghost head = out@;
    let mut i: usize = 0;
    while i < snippets.len()
        invariant
            i <= snippets@.len(),
            out@ + snippet_sections(snippets@, i as int) == head + snippet_sections(snippets@, 0),
        decreases snippets.len() - i,
    {
        let ghost pre = out@;
        let p1 = str_to_chars("File: ");
        out.extend_from_slice(p1.as_slice());
        let f = str_to_chars(snippets[i].file.as_str());
        out.extend_from_slice(f.as_slice());
        let p2 = str_to_chars(" (line ");
        out.extend_from_slice(p2.as_slice());
        let num = dec_chars(snippets[i].line);
        out.extend_from_slice(num.as_slice());
        let p3 = str_to_chars("):\n");
        out.extend_from_slice(p3.as_slice());
        let p4 = str_to_chars("```\n");
        out.extend_from_slice(p4.as_slice());
        let sn = str_to_chars(snippets[i].snippet.as_str());
        out.extend_from_slice(sn.as_slice());
        let p5 = str_to_chars("\n```\n\n");
        out.extend_from_slice(p5.as_slice());
        proof {
            assert(out@ =~= pre + ("File: "@ + snippets@[i as int].file@ + " (line "@ + dec_str(
                snippets@[i as int].line as nat,
            ) + "):\n"@ + "```\n"@ + snippets@[i as int].snippet@ + "\n```\n\n"@));
            assert(out@ + snippet_sections(snippets@, i as int + 1) =~= pre + snippet_sections(
                snippets@,
                i as int,
            ));
        }
        i = i + 1;
    }
    proof {
        assert(out@ =~= head + snippet_sections(snippets@, 0));
    }
    let uq = str_to_chars("User Query:\n");
    out.extend_from_slice(uq.as_slice());
    let qv = str_to_chars(query);
    out.extend_from_slice(qv.as_slice());
    proof {
        assert(out@ =~= prompt_of(query@, snippets@));
    }
    chars_to_string(&out)
}

} // verus!
