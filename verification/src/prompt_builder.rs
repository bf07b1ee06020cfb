//! Document assembly: free text is wrapped as opaque character data whose
//! closing marker can never be forged from the content, path attributes
//! are escaped, and the selected files are emitted in relative-path order
//! between the fixed sequence of tagged sections.

use vstd::prelude::*;
use crate::file_item::FileItem;
use crate::sort::{Keyed, keyed_views, keyed_view, sort_pairs, sort_keyed, pairs_sorted,
    lemma_sort_pairs_props};
use crate::strutil::{str_to_chars, chars_to_string};

verus! {

// ---------- opaque character data ----------

/// The content with every embedded closing marker split across two
/// adjacent sections, so the wrapped text never closes early; the
/// underlying text is unchanged when the sections are concatenated back.
pub open spec fn cdata_escape(s: Seq<char>) -> Seq<char>
    decreases s.len(),
{
    if s.len() >= 3 && s[0] == ']' && s[1] == ']' && s[2] == '>' {
        "]]]]><![CDATA[>"@ + cdata_escape(s.skip(3))
    } else if s.len() == 0 {
        s
    } else {
        seq![s[0]] + cdata_escape(s.drop_first())
    }
}

/// Free text wrapped as one or more opaque sections.
pub open spec fn cdata_wrap_spec(s: Seq<char>) -> Seq<char> {
    "<![CDATA["@ + cdata_escape(s) + "]]>"@
}

/// Wraps free text so markup inside it stays inert.
pub fn cdata_wrap(s: &str) -> (r: String)
    ensures
        r@ == cdata_wrap_spec(s@),
{
    let sv = str_to_chars(s);
    let mut out: Vec<char> = str_to_chars("<![CDATA[");
    let mut i: usize = 0;
    proof {
        assert(sv@.skip(0) =~= sv@);
    }
    while i < sv.len()
        invariant
            i <= sv@.len(),
            sv@ == s@,
            out@ + cdata_escape(sv@.skip(i as int)) == "<![CDATA["@ + cdata_escape(s@),
        decreases sv.len() - i,
    {
        proof {
            assert(sv@.skip(i as int)[0] == sv@[i as int]);
            assert(sv@.skip(i as int).drop_first() =~= sv@.skip(i as int + 1));
        }
        if sv.len() - i > 2 && sv[i] == ']' && sv[i + 1] == ']' && sv[i + 2] == '>' {
            proof {
                assert(sv@.skip(i as int)[1] == sv@[i as int + 1]);
                assert(sv@.skip(i as int)[2] == sv@[i as int + 2]);
                assert(sv@.skip(i as int).skip(3) =~= sv@.skip(i as int + 3));
            }
            let rep = str_to_chars("]]]]><![CDATA[>");
            let ghost pre = out@;
            out.extend_from_slice(rep.as_slice());
            proof {
                assert(out@ =~= pre + "]]]]><![CDATA[>"@);
            }
            i = i + 3;
        } else {
            let c = sv[i];
            let ghost pre = out@;
            out.push(c);
            proof {
                assert(out@ =~= pre + seq![sv@[i as int]]);
                if sv@.skip(i as int).len() >= 3 && sv@.skip(i as int)[0] == ']' && sv@.skip(
                    i as int,
                )[1] == ']' && sv@.skip(i as int)[2] == '>' {
                    assert(sv@[i as int + 1] == sv@.skip(i as int)[1]);
                    assert(sv@[i as int + 2] == sv@.skip(i as int)[2]);
                    assert(false);
                }
            }
            i = i + 1;
        }
    }
    proof {
        assert(sv@.skip(sv@.len() as int) =~= Seq::<char>::empty());
    }
    let close = str_to_chars("]]>");
    let ghost pre = out@;
    out.extend_from_slice(close.as_slice());
    proof {
        assert(out@ =~= pre + "]]>"@);
    }
    chars_to_string(&out)
}

// ---------- decoding, for the round-trip guarantee ----------

/// A scanner over wrapped output: outside a section it expects a section
/// opening (or the end); inside, it accumulates characters until the
/// first closing marker.
pub open spec fn cdata_scan(d: Seq<char>, inside: bool, acc: Seq<char>) -> Option<Seq<char>>
    decreases d.len(),
{
    if !inside {
        if d.len() == 0 {
            Some(acc)
        } else if d.len() >= 9 && d.take(9) == "<![CDATA["@ {
            cdata_scan(d.skip(9), true, acc)
        } else {
            None
        }
    } else {
        if d.len() >= 3 && d[0] == ']' && d[1] == ']' && d[2] == '>' {
            cdata_scan(d.skip(3), false, acc)
        } else if d.len() == 0 {
            None
        } else {
            cdata_scan(d.drop_first(), true, acc.push(d[0]))
        }
    }
}

/// What a reader of the document recovers from a wrapped body: the
/// concatenation of its sections' contents.
pub open spec fn cdata_decode(d: Seq<char>) -> Option<Seq<char>> {
    cdata_scan(d, false, Seq::empty())
}

proof fn lemma_cdata_scan_inside(s: Seq<char>, acc: Seq<char>)
    ensures
        cdata_scan(cdata_escape(s) + "]]>"@, true, acc) == Some(acc + s),
    decreases s.len(),
{
    reveal_strlit("]]>");
    reveal_strlit("]]]]><![CDATA[>");
    reveal_strlit("<![CDATA[");
    let d = cdata_escape(s) + "]]>"@;
    if s.len() >= 3 && s[0] == ']' && s[1] == ']' && s[2] == '>' {
        let s3 = s.skip(3);
        assert(d =~= "]]]]><![CDATA[>"@ + (cdata_escape(s3) + "]]>"@));
        let tail = cdata_escape(s3) + "]]>"@;
        assert(tail.len() >= 3);
        // the scanner takes the first two brackets as content, closes on
        // the next three characters, reopens, and takes the bracket
        assert(d[0] == ']' && d[1] == ']' && d[2] == ']');
        assert(cdata_scan(d, true, acc) == cdata_scan(d.drop_first(), true, acc.push(']')));
        let d1 = d.drop_first();
        assert(d1[0] == ']' && d1[1] == ']' && d1[2] == ']');
        assert(cdata_scan(d1, true, acc.push(']')) == cdata_scan(
            d1.drop_first(),
            true,
            acc.push(']').push(']'),
        ));
        let d2 = d1.drop_first();
        let acc2 = acc.push(']').push(']');
        assert(d2[0] == ']' && d2[1] == ']' && d2[2] == '>');
        assert(cdata_scan(d2, true, acc2) == cdata_scan(d2.skip(3), false, acc2));
        let d3 = d2.skip(3);
        assert(d3 =~= "<![CDATA["@ + (seq!['>'] + tail));
        assert(d3.take(9) =~= "<![CDATA["@);
        assert(d3.len() >= 9);
        assert(cdata_scan(d3, false, acc2) == cdata_scan(d3.skip(9), true, acc2));
        let d4 = d3.skip(9);
        assert(d4 =~= seq!['>'] + tail);
        assert(d4[0] == '>');
        assert(d4.len() >= 1);
        if d4.len() >= 3 && d4[0] == ']' {
            assert(false);
        }
        assert(cdata_scan(d4, true, acc2) == cdata_scan(d4.drop_first(), true, acc2.push('>')));
        assert(d4.drop_first() =~= tail);
        lemma_cdata_scan_inside(s3, acc2.push('>'));
        assert(acc2.push('>') + s3 =~= acc + s);
    } else if s.len() == 0 {
        assert(d =~= "]]>"@);
        assert(d[0] == ']' && d[1] == ']' && d[2] == '>');
        assert(cdata_scan(d, true, acc) == cdata_scan(d.skip(3), false, acc));
        assert(d.skip(3) =~= Seq::<char>::empty());
        assert(acc + s =~= acc);
    } else {
        let s1 = s.drop_first();
        assert(d =~= seq![s[0]] + (cdata_escape(s1) + "]]>"@));
        let tail = cdata_escape(s1) + "]]>"@;
        // no closing marker can start at the head
        if d.len() >= 3 && d[0] == ']' && d[1] == ']' && d[2] == '>' {
            assert(s[0] == ']');
            assert(tail[0] == ']' && tail[1] == '>');
            if s1.len() >= 3 && s1[0] == ']' && s1[1] == ']' && s1[2] == '>' {
                assert(tail[0] == ']' && tail[1] == ']');
                assert(false);
            } else if s1.len() == 0 {
                assert(tail =~= "]]>"@);
                assert(tail[1] == ']');
                assert(false);
            } else {
                assert(tail[0] == s1[0]);
                let tail2 = cdata_escape(s1.drop_first()) + "]]>"@;
                assert(tail.drop_first() =~= tail2);
                assert(tail[1] == tail2[0]);
                if s1.drop_first().len() >= 3 && s1.drop_first()[0] == ']' && s1.drop_first()[1]
                    == ']' && s1.drop_first()[2] == '>' {
                    assert(tail2[0] == ']');
                    assert(false);
                } else if s1.drop_first().len() == 0 {
                    assert(tail2 =~= "]]>"@);
                    assert(tail2[0] == ']');
                    assert(false);
                } else {
                    assert(tail2[0] == s1.drop_first()[0]);
                    // then s would begin with the marker itself
                    assert(s[0] == ']' && s[1] == ']' && s[2] == '>');
                    assert(false);
                }
            }
        }
        assert(cdata_scan(d, true, acc) == cdata_scan(d.drop_first(), true, acc.push(s[0])));
        assert(d.drop_first() =~= tail);
        lemma_cdata_scan_inside(s1, acc.push(s[0]));
        assert(acc.push(s[0]) + s1 =~= acc + s);
    }
}

/// The round trip: decoding a wrapped body yields the original text
/// exactly, even when the text itself contains the closing marker.
pub proof fn lemma_cdata_round_trip(s: Seq<char>)
    ensures
        cdata_decode(cdata_wrap_spec(s)) == Some(s),
{
    reveal_strlit("<![CDATA[");
    let d = cdata_wrap_spec(s);
    let tail = cdata_escape(s) + "]]>"@;
    assert(d =~= "<![CDATA["@ + tail);
    assert(d.len() >= 9 && d.take(9) =~= "<![CDATA["@);
    assert(cdata_scan(d, false, Seq::empty()) == cdata_scan(d.skip(9), true, Seq::empty()));
    assert(d.skip(9) =~= tail);
    lemma_cdata_scan_inside(s, Seq::empty());
    assert(Seq::empty() + s =~= s);
}

// ---------- attribute escaping ----------

pub open spec fn escape_attr_char(c: char) -> Seq<char> {
    if c == '&' {
        "&amp;"@
    } else if c == '<' {
        "&lt;"@
    } else if c == '>' {
        "&gt;"@
    } else if c == '"' {
        "&quot;"@
    } else if c == '\'' {
        "&apos;"@
    } else {
        seq![c]
    }
}

/// The narrower escaping for attribute values: ampersand, angle brackets
/// and both quotes, each replaced by its entity.
pub open spec fn escape_attr_spec(s: Seq<char>) -> Seq<char>
    decreases s.len(),
{
    if s.len() == 0 {
        Seq::empty()
    } else {
        escape_attr_char(s[0]) + escape_attr_spec(s.drop_first())
    }
}

/// Escapes a value for use inside a quoted attribute.
pub fn escape_xml_attr(s: &str) -> (r: String)
    ensures
        r@ == escape_attr_spec(s@),
{
    let sv = str_to_chars(s);
    let mut out: Vec<char> = Vec::new();
    let mut i: usize = 0;
    proof {
        assert(sv@.skip(0) =~= sv@);
        assert(out@ + escape_attr_spec(sv@.skip(0)) =~= escape_attr_spec(s@));
    }
    while i < sv.len()
        invariant
            i <= sv@.len(),
            sv@ == s@,
            out@ + escape_attr_spec(sv@.skip(i as int)) == escape_attr_spec(s@),
        decreases sv.len() - i,
    {
        proof {
            assert(sv@.skip(i as int)[0] == sv@[i as int]);
            assert(sv@.skip(i as int).drop_first() =~= sv@.skip(i as int + 1));
        }
        let c = sv[i];
        let ghost pre = out@;
        if c == '&' {
            let e = str_to_chars("&amp;");
            out.extend_from_slice(e.as_slice());
        } else if c == '<' {
            let e = str_to_chars("&lt;");
            out.extend_from_slice(e.as_slice());
        } else if c == '>' {
            let e = str_to_chars("&gt;");
            out.extend_from_slice(e.as_slice());
        } else if c == '"' {
            let e = str_to_chars("&quot;");
            out.extend_from_slice(e.as_slice());
        } else if c == '\'' {
            let e = str_to_chars("&apos;");
            out.extend_from_slice(e.as_slice());
        } else {
            out.push(c);
        }
        proof {
            assert(out@ =~= pre + escape_attr_char(sv@[i as int]));
        }
        i = i + 1;
    }
    proof {
        assert(sv@.skip(sv@.len() as int) =~= Seq::<char>::empty());
    }
    chars_to_string(&out)
}

// ---------- the assembled document ----------

/// The selected entries' (relative path, index) pairs, in catalog order.
pub open spec fn selected_pairs(files: Seq<FileItem>, i: int) -> Seq<(Seq<char>, int)>
    decreases files.len() - i,
{
    if i < 0 || i >= files.len() {
        Seq::empty()
    } else {
        (if files[i].selected {
            seq![(files[i].rel_path@, i)]
        } else {
            Seq::empty()
        }) + selected_pairs(files, i + 1)
    }
}

/// The loaded content a file contributes, empty when none was loaded.
pub open spec fn content_of(f: FileItem) -> Seq<char> {
    match f.content {
        Some(c) => c@,
        None => Seq::empty(),
    }
}

/// The `code` section's elements, one per selected file, in the given
/// (sorted) order.
pub open spec fn code_files(sorted: Seq<(Seq<char>, int)>, j: int, files: Seq<FileItem>) -> Seq<
    char,
>
    decreases sorted.len() - j,
{
    if j < 0 || j >= sorted.len() {
        Seq::empty()
    } else {
        "<file path=\""@ + escape_attr_spec(sorted[j].0) + "\">"@ + cdata_wrap_spec(
            if 0 <= sorted[j].1 < files.len() {
                content_of(files[sorted[j].1])
            } else {
                Seq::empty()
            },
        ) + "</file>\n"@ + code_files(sorted, j + 1, files)
    }
}

/// The whole document: the fixed tag sequence, with the instruction
/// emitted twice by design and the selected files ordered by relative
/// path.
pub open spec fn spec_document(
    system_prompt: Seq<char>,
    instruction: Seq<char>,
    tree: Seq<char>,
    files: Seq<FileItem>,
    term_cmd: Seq<char>,
    term_out: Seq<char>,
) -> Seq<char> {
    "<system_prompt>\n"@ + cdata_wrap_spec(system_prompt) + "\n</system_prompt>\n"@
        + "<instruction>"@ + cdata_wrap_spec(instruction) + "</instruction>\n"@ + "<file_tree>\n"@
        + cdata_wrap_spec(tree) + "\n</file_tree>\n"@ + "<code>\n"@ + code_files(
        sort_pairs(selected_pairs(files, 0)),
        0,
        files,
    ) + "</code>\n\n"@ + "<terminal_command>"@ + cdata_wrap_spec(term_cmd) + "</terminal_command>\n"@
        + "<terminal_output>"@ + cdata_wrap_spec(term_out) + "</terminal_output>\n"@
        + "<instruction>"@ + cdata_wrap_spec(instruction) + "</instruction>\n"@
}

/// The selected files appear in `seq_le` order of their relative paths,
/// whatever order they were selected in.
pub proof fn lemma_document_order(files: Seq<FileItem>)
    ensures
        pairs_sorted(sort_pairs(selected_pairs(files, 0))),
        sort_pairs(selected_pairs(files, 0)).to_multiset() == selected_pairs(
            files,
            0,
        ).to_multiset(),
{
    lemma_sort_pairs_props(selected_pairs(files, 0));
}

fn push_str_chunk(out: &mut Vec<char>, piece: &str)
    ensures
        final(out)@ == old(out)@ + piece@,
{
    let p = str_to_chars(piece);
    out.extend_from_slice(p.as_slice());
    proof {
        assert(out@ =~= old(out)@ + piece@);
    }
}

fn push_string(out: &mut Vec<char>, piece: &String)
    ensures
        final(out)@ == old(out)@ + piece@,
{
    let p = str_to_chars(piece.as_str());
    out.extend_from_slice(p.as_slice());
    proof {
        assert(out@ =~= old(out)@ + piece@);
    }
}

/// Assembles the final document from its parts. Deterministic: the same
/// inputs give the same text, and the selected files are emitted sorted
/// by relative path regardless of the order they were selected in.
pub fn assemble_document(
    system_prompt: &String,
    instruction: &String,
    tree: &String,
    files: &Vec<FileItem>,
    term_cmd: &String,
    term_out: &String,
) -> (r: String)
    ensures
        r@ == spec_document(system_prompt@, instruction@, tree@, files@, term_cmd@, term_out@),
{
    broadcast use vstd::seq_lib::group_to_multiset_ensures;

    let ghost goal = spec_document(
        system_prompt@,
        instruction@,
        tree@,
        files@,
        term_cmd@,
        term_out@,
    );
    // gather and sort the selected entries
    let mut keyed: Vec<Keyed> = Vec::new();
    let mut i: usize = 0;
    proof {
        assert(keyed_views(keyed@) + selected_pairs(files@, 0) =~= selected_pairs(files@, 0));
    }
    while i < files.len()
        invariant
            i <= files@.len(),
            keyed_views(keyed@) + selected_pairs(files@, i as int) == selected_pairs(files@, 0),
        decreases files.len() - i,
    {
        if files[i].selected {
            let key = str_to_chars(files[i].rel_path.as_str());
            let entry = Keyed { key, idx: i };
            let ghost pre = keyed_views(keyed@);
            keyed.push(entry);
            proof {
                assert(keyed_views(keyed@) =~= pre.push((files@[i as int].rel_path@, i as int)));
                assert(pre.push((files@[i as int].rel_path@, i as int)) + selected_pairs(
                    files@,
                    i as int + 1,
                ) =~= pre + selected_pairs(files@, i as int));
            }
        } else {
            proof {
                assert(selected_pairs(files@, i as int) =~= Seq::<(Seq<char>, int)>::empty()
                    + selected_pairs(files@, i as int + 1));
            }
        }
        i = i + 1;
    }
    proof {
        assert(selected_pairs(files@, files@.len() as int) =~= Seq::<(Seq<char>, int)>::empty());
        assert(keyed_views(keyed@) =~= selected_pairs(files@, 0));
    }
    let ghost sel = selected_pairs(files@, 0);
    let sorted = sort_keyed(keyed);
    let ghost sv = sort_pairs(sel);
    proof {
        lemma_sort_pairs_props(sel);
        lemma_selected_pairs_in_range(files@, 0);
        assert forall|m: int|
            0 <= m < sv.len() implies 0 <= (#[trigger] sv[m]).1 < files@.len() && sv[m].0
            == files@[sv[m].1].rel_path@ by {
            assert(sv.contains(sv[m]));
            assert(sv.to_multiset().count(sv[m]) > 0);
            assert(sel.contains(sv[m]));
            let w = choose|w: int| 0 <= w < sel.len() && sel[w] == sv[m];
        }
    }
    // emit the document
    let mut out: Vec<char> = Vec::new();
    push_str_chunk(&mut out, "<system_prompt>\n");
    let w = cdata_wrap(system_prompt.as_str());
    push_string(&mut out, &w);
    push_str_chunk(&mut out, "\n</system_prompt>\n");
    push_str_chunk(&mut out, "<instruction>");
    let w = cdata_wrap(instruction.as_str());
    push_string(&mut out, &w);
    push_str_chunk(&mut out, "</instruction>\n");
    push_str_chunk(&mut out, "<file_tree>\n");
    let w = cdata_wrap(tree.as_str());
    push_string(&mut out, &w);
    push_str_chunk(&mut out, "\n</file_tree>\n");
    push_str_chunk(&mut out, "<code>\n");
    let ghost head = out@;
    let mut j: usize = 0;
    while j < sorted.len()
        invariant
            j <= sorted@.len(),
            keyed_views(sorted@) == sv,
            sv.len() == sorted@.len(),
            forall|m: int|
                0 <= m < sv.len() ==> 0 <= (#[trigger] sv[m]).1 < files@.len() && sv[m].0
                    == files@[sv[m].1].rel_path@,
            out@ + code_files(sv, j as int, files@) == head + code_files(sv, 0, files@),
        decreases sorted.len() - j,
    {
        proof {
            assert(keyed_views(sorted@)[j as int] == keyed_view(sorted@[j as int]));
        }
        let ghost pre = out@;
        push_str_chunk(&mut out, "<file path=\"");
        let idx = sorted[j].idx;
        proof {
            assert(sorted@[j as int].idx as int == sv[j as int].1);
            assert(files@[idx as int].rel_path@ == sv[j as int].0);
        }
        let esc = escape_xml_attr(files[idx].rel_path.as_str());
        push_string(&mut out, &esc);
        push_str_chunk(&mut out, "\">");
        let w = match &files[idx].content {
            Some(c) => cdata_wrap(c.as_str()),
            None => cdata_wrap(""),
        };
        push_string(&mut out, &w);
        push_str_chunk(&mut out, "</file>\n");
        proof {
            reveal_strlit("");
            assert(sorted@[j as int].key@ == sv[j as int].0);
            assert(sorted@[j as int].idx as int == sv[j as int].1);
            assert(w@ == cdata_wrap_spec(content_of(files@[sv[j as int].1])));
            assert(out@ =~= pre + ("<file path=\""@ + escape_attr_spec(sv[j as int].0) + "\">"@
                + cdata_wrap_spec(content_of(files@[sv[j as int].1])) + "</file>\n"@));
            assert(out@ + code_files(sv, j as int + 1, files@) =~= pre + code_files(
                sv,
                j as int,
                files@,
            ));
        }
        j = j + 1;
    }
    proof {
        assert(out@ =~= head + code_files(sv, 0, files@));
    }
    push_str_chunk(&mut out, "</code>\n\n");
    push_str_chunk(&mut out, "<terminal_command>");
    let w = cdata_wrap(term_cmd.as_str());
    push_string(&mut out, &w);
    push_str_chunk(&mut out, "</terminal_command>\n");
    push_str_chunk(&mut out, "<terminal_output>");
    let w = cdata_wrap(term_out.as_str());
    push_string(&mut out, &w);
    push_str_chunk(&mut out, "</terminal_output>\n");
    push_str_chunk(&mut out, "<instruction>");
    let w = cdata_wrap(instruction.as_str());
    push_string(&mut out, &w);
    push_str_chunk(&mut out, "</instruction>\n");
    proof {
        assert(out@ =~= goal);
    }
    chars_to_string(&out)
}

proof fn lemma_selected_pairs_in_range(files: Seq<FileItem>, i: int)
    requires
        0 <= i,
    ensures
        forall|m: int|
            0 <= m < selected_pairs(files, i).len() ==> i <= (#[trigger] selected_pairs(
                files,
                i,
            )[m]).1 < files.len() && selected_pairs(files, i)[m].0 == files[selected_pairs(
                files,
                i,
            )[m].1].rel_path@,
    decreases files.len() - i,
{
    if i < files.len() {
        lemma_selected_pairs_in_range(files, i + 1);
    }
}

// ---------- remote text extraction ----------

/// What the text renderer yields for a page: a function of the markup
/// alone.
pub uninterp spec fn text_of_html(html: Seq<char>) -> Seq<char>;

/// Relies on `html2text::from_read` at a fixed width of 80 columns: the
/// rendering is a pure function of the markup; a page it cannot render
/// yields nothing.
#[verifier::external_body]
pub fn extract_text(html: &str) -> (r: Option<String>)
    ensures
        r matches Some(t) ==> t@ == text_of_html(html@),
{
    html2text::from_read(html.as_bytes(), 80).ok()
}

} // verus!
