//! Comment stripping for clipboard text: line comments starting `//` or
//! `#` are cut, except inside string literals; each line loses its
//! trailing whitespace; lines left blank are dropped.

use vstd::prelude::*;
use crate::strutil::{lines_of, split_lines, str_to_chars, chars_to_string, trim_spec, trim_chars,
    trim_end_spec, trim_end_chars};

verus! {

/// One line scanned left to right: a comment opener ends it, unless the
/// scan is inside a string literal; quote state tracks the opening quote
/// and backslash escapes.
pub open spec fn strip_line_rec(
    cs: Seq<char>,
    in_string: bool,
    string_char: char,
    prev_escape: bool,
    out: Seq<char>,
) -> Seq<char>
    decreases cs.len(),
{
    if cs.len() == 0 {
        out
    } else if !in_string && cs.len() >= 2 && cs[0] == '/' && cs[1] == '/' {
        out
    } else if !in_string && cs[0] == '#' {
        out
    } else {
        let c = cs[0];
        let toggles = (c == '"' || c == '\'') && !prev_escape;
        let in2 = if toggles {
            if in_string && string_char == c {
                false
            } else if !in_string {
                true
            } else {
                in_string
            }
        } else {
            in_string
        };
        let sc2 = if toggles && !in_string {
            c
        } else {
            string_char
        };
        strip_line_rec(cs.drop_first(), in2, sc2, c == '\\' && !prev_escape, out.push(c))
    }
}

/// A line with its comment cut and trailing whitespace removed.
pub open spec fn stripped_line(l: Seq<char>) -> Seq<char> {
    trim_end_spec(strip_line_rec(l, false, '\0', false, Seq::empty()))
}

/// The stripped lines that are not blank, in order.
pub open spec fn kept_lines(ls: Seq<Seq<char>>, i: int) -> Seq<Seq<char>>
    decreases ls.len() - i,
{
    if i < 0 || i >= ls.len() {
        Seq::empty()
    } else {
        let st = stripped_line(ls[i]);
        (if trim_spec(st).len() > 0 {
            seq![st]
        } else {
            Seq::empty()
        }) + kept_lines(ls, i + 1)
    }
}

pub open spec fn join_nl(ls: Seq<Seq<char>>) -> Seq<char>
    decreases ls.len(),
{
    if ls.len() == 0 {
        Seq::empty()
    } else {
        ls[0] + nl_tail(ls.drop_first())
    }
}

pub open spec fn nl_tail(ls: Seq<Seq<char>>) -> Seq<char>
    decreases ls.len(),
{
    if ls.len() == 0 {
        Seq::empty()
    } else {
        "\n"@ + ls[0] + nl_tail(ls.drop_first())
    }
}

/// The whole text, stripped: kept lines joined by single newlines.
pub open spec fn strip_comments_spec(text: Seq<char>) -> Seq<char> {
    join_nl(kept_lines(lines_of(text), 0))
}

proof fn lemma_nl_tail_push(ls: Seq<Seq<char>>, x: Seq<char>)
    ensures
        nl_tail(ls.push(x)) == nl_tail(ls) + "\n"@ + x,
    decreases ls.len(),
{
    assert(ls.push(x)[0] == if ls.len() == 0 {
        x
    } else {
        ls[0]
    });
    if ls.len() == 0 {
        assert(ls.push(x).drop_first() =~= Seq::<Seq<char>>::empty());
        assert(nl_tail(Seq::<Seq<char>>::empty()) =~= Seq::<char>::empty());
        assert(nl_tail(ls.push(x)) =~= "\n"@ + x);
        assert(nl_tail(ls) + "\n"@ + x =~= "\n"@ + x);
    } else {
        assert(ls.push(x).drop_first() =~= ls.drop_first().push(x));
        lemma_nl_tail_push(ls.drop_first(), x);
        assert(nl_tail(ls.push(x)) =~= nl_tail(ls) + "\n"@ + x);
    }
}

proof fn lemma_join_nl_push(ls: Seq<Seq<char>>, x: Seq<char>)
    ensures
        join_nl(ls.push(x)) == join_nl(ls) + (if ls.len() == 0 {
            x
        } else {
            "\n"@ + x
        }),
{
    if ls.len() == 0 {
        assert(ls.push(x).drop_first() =~= Seq::<Seq<char>>::empty());
        assert(join_nl(ls.push(x)) =~= x);
        assert(join_nl(ls) + x =~= x);
    } else {
        assert(ls.push(x).drop_first() =~= ls.drop_first().push(x));
        lemma_nl_tail_push(ls.drop_first(), x);
        assert(join_nl(ls.push(x)) =~= join_nl(ls) + ("\n"@ + x));
    }
}

fn strip_one_line(line: &Vec<char>) -> (r: Vec<char>)
    ensures
        r@ == stripped_line(line@),
{
    let ghost goal = strip_line_rec(line@, false, '\0', false, Seq::empty());
    let mut acc: Vec<char> = Vec::new();
    let mut in_string = false;
    let mut string_char = '\0';
    let mut prev_escape = false;
    let mut j: usize = 0;
    let mut stopped = false;
    proof {
        assert(line@.skip(0) =~= line@);
    }
    while j < line.len() && !stopped
        invariant
            j <= line@.len(),
            stopped ==> acc@ == goal,
            !stopped ==> strip_line_rec(line@.skip(j as int), in_string, string_char, prev_escape, acc@)
                == goal,
        decreases line@.len() - j + (if stopped {
            0int
        } else {
            1int
        }),
    {
        proof {
            assert(line@.skip(j as int)[0] == line@[j as int]);
            assert(line@.skip(j as int).drop_first() =~= line@.skip(j as int + 1));
            if (j as int) + 1 < line@.len() {
                assert(line@.skip(j as int)[1] == line@[j as int + 1]);
            }
        }
        let c = line[j];
        if !in_string && j + 1 < line.len() && c == '/' && line[j + 1] == '/' {
            stopped = true;
        } else if !in_string && c == '#' {
            stopped = true;
        } else {
            let toggles = (c == '"' || c == '\'') && !prev_escape;
            if toggles {
                if in_string && string_char == c {
                    in_string = false;
                } else if !in_string {
                    in_string = true;
                    string_char = c;
                }
            }
            prev_escape = c == '\\' && !prev_escape;
            acc.push(c);
            j = j + 1;
        }
    }
    proof {
        if !stopped {
            assert(line@.skip(line@.len() as int) =~= Seq::<char>::empty());
        }
        assert(acc@ == goal);
    }
    trim_end_chars(&acc)
}

/// Strips comments from clipboard text: comment-aware per line, blank
/// lines dropped, the rest joined by newlines.
pub fn strip_comments(text: &str) -> (r: String)
    ensures
        r@ == strip_comments_spec(text@),
{
    let cv = str_to_chars(text);
    let lines = split_lines(&cv);
    let ghost lv = lines_of(text@);
    let ghost all = kept_lines(lv, 0);
    let mut out: Vec<char> = Vec::new();
    let mut first = true;
    let ghost mut done: Seq<Seq<char>> = Seq::empty();
    let mut i: usize = 0;
    proof {
        assert(lines.deep_view() == lv);
        assert(done + kept_lines(lv, 0) =~= kept_lines(lv, 0));
    }
    while i < lines.len()
        invariant
            i <= lines@.len(),
            lines.deep_view() == lv,
            lv.len() == lines@.len(),
            all == kept_lines(lv, 0),
            done + kept_lines(lv, i as int) == all,
            out@ == join_nl(done),
            first <==> done.len() == 0,
        decreases lines.len() - i,
    {
        proof {
            assert(lines@[i as int]@ == lv[i as int]);
        }
        let st = strip_one_line(&lines[i]);
        let trimmed = trim_chars(&st);
        if trimmed.len() > 0 {
            proof {
                assert(kept_lines(lv, i as int) =~= seq![stripped_line(lv[i as int])] + kept_lines(
                    lv,
                    i as int + 1,
                ));
                lemma_join_nl_push(done, stripped_line(lv[i as int]));
                assert(done.push(stripped_line(lv[i as int])) + kept_lines(lv, i as int + 1)
                    =~= done + kept_lines(lv, i as int));
            }
            if !first {
                out.push('\n');
                proof {
                    reveal_strlit("\n");
                    assert("\n"@ =~= seq!['\n']);
                }
            }
            let ghost pre = out@;
            out.extend_from_slice(st.as_slice());
            proof {
                assert(out@ =~= pre + st@);
                done = done.push(stripped_line(lv[i as int]));
                assert(out@ =~= join_nl(done));
            }
            first = false;
        } else {
            proof {
                assert(kept_lines(lv, i as int) =~= kept_lines(lv, i as int + 1));
            }
        }
        i = i + 1;
    }
    proof {
        assert(kept_lines(lv, lv.len() as int) =~= Seq::<Seq<char>>::empty());
        assert(done =~= all);
    }
    chars_to_string(&out)
}

} // verus!
