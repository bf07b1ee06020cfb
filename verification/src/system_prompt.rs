//! The system prompt's location: a per-project file wins, then an
//! override from the environment, then a fixed fallback path; when none
//! of them is a file, a message names every path that was tried. Probing
//! the file system is the caller's work.

use vstd::prelude::*;
use crate::strutil::{str_to_chars, chars_to_string};

verus! {

/// One possible location, with whether a file actually sits there.
pub struct PromptCandidate {
    pub path: String,
    pub is_file: bool,
}

pub open spec fn opt_candidate(c: Option<&PromptCandidate>) -> Option<PromptCandidate> {
    match c {
        Some(x) => Some(*x),
        None => None,
    }
}

/// The path chosen, by priority: project, then environment override,
/// then the fallback; nothing when none is a file.
pub open spec fn chosen_prompt(
    project: Option<PromptCandidate>,
    env_override: Option<PromptCandidate>,
    fallback: PromptCandidate,
) -> Option<Seq<char>> {
    if project matches Some(c) && c.is_file {
        Some(project->0.path@)
    } else if env_override matches Some(c) && c.is_file {
        Some(env_override->0.path@)
    } else if fallback.is_file {
        Some(fallback.path@)
    } else {
        None
    }
}

/// The paths that were probed and held no file, in probe order.
pub open spec fn tried_paths(
    project: Option<PromptCandidate>,
    env_override: Option<PromptCandidate>,
    fallback: PromptCandidate,
) -> Seq<Seq<char>> {
    (match project {
        Some(c) => seq![c.path@],
        None => Seq::empty(),
    }) + (match env_override {
        Some(c) => seq![c.path@],
        None => Seq::empty(),
    }) + seq![fallback.path@]
}

pub open spec fn join_comma(ps: Seq<Seq<char>>) -> Seq<char>
    decreases ps.len(),
{
    if ps.len() == 0 {
        Seq::empty()
    } else {
        ps[0] + comma_tail(ps.drop_first())
    }
}

pub open spec fn comma_tail(ps: Seq<Seq<char>>) -> Seq<char>
    decreases ps.len(),
{
    if ps.len() == 0 {
        Seq::empty()
    } else {
        ", "@ + ps[0] + comma_tail(ps.drop_first())
    }
}

proof fn lemma_join1(a: Seq<char>)
    ensures
        join_comma(seq![a]) == a,
{
    assert(seq![a].drop_first() =~= Seq::<Seq<char>>::empty());
    assert(join_comma(seq![a]) =~= a);
}

proof fn lemma_join2(a: Seq<char>, b: Seq<char>)
    ensures
        join_comma(seq![a, b]) == a + ", "@ + b,
{
    assert(seq![a, b].drop_first() =~= seq![b]);
    assert(seq![b].drop_first() =~= Seq::<Seq<char>>::empty());
    assert(comma_tail(Seq::<Seq<char>>::empty()) =~= Seq::<char>::empty());
    assert(comma_tail(seq![b]) =~= ", "@ + b);
    assert(join_comma(seq![a, b]) =~= a + ", "@ + b);
}

proof fn lemma_join3(a: Seq<char>, b: Seq<char>, c: Seq<char>)
    ensures
        join_comma(seq![a, b, c]) == a + ", "@ + b + ", "@ + c,
{
    assert(seq![a, b, c].drop_first() =~= seq![b, c]);
    assert(seq![b, c].drop_first() =~= seq![c]);
    assert(seq![c].drop_first() =~= Seq::<Seq<char>>::empty());
    assert(comma_tail(Seq::<Seq<char>>::empty()) =~= Seq::<char>::empty());
    assert(comma_tail(seq![c]) =~= ", "@ + c);
    assert(comma_tail(seq![b, c]) =~= ", "@ + b + ", "@ + c);
    assert(join_comma(seq![a, b, c]) =~= a + ", "@ + b + ", "@ + c);
}

/// The loud failure message, naming every location probed.
pub open spec fn not_found_message(tried: Seq<Seq<char>>) -> Seq<char> {
    "System prompt not found. Tried: "@ + join_comma(tried)
}

/// Picks the system prompt's path by priority, or reports every location
/// tried when none holds a file.
pub fn choose_system_prompt(
    project: Option<&PromptCandidate>,
    env_override: Option<&PromptCandidate>,
    fallback: &PromptCandidate,
) -> (r: Result<String, String>)
    ensures
        match chosen_prompt(opt_candidate(project), opt_candidate(env_override), *fallback) {
            Some(p) => r matches Ok(s) && s@ == p,
            None => r matches Err(m) && m@ == not_found_message(
                tried_paths(opt_candidate(project), opt_candidate(env_override), *fallback),
            ),
        },
{
    if let Some(c) = project {
        if c.is_file {
            return Ok(c.path.clone());
        }
    }
    if let Some(c) = env_override {
        if c.is_file {
            return Ok(c.path.clone());
        }
    }
    if fallback.is_file {
        return Ok(fallback.path.clone());
    }
    let ghost tried = tried_paths(opt_candidate(project), opt_candidate(env_override), *fallback);
    let mut out = str_to_chars("System prompt not found. Tried: ");
    let mut first = true;
    if let Some(c) = project {
        let p = str_to_chars(c.path.as_str());
        out.extend_from_slice(p.as_slice());
        first = false;
    }
    if let Some(c) = env_override {
        if !first {
            let sep = str_to_chars(", ");
            out.extend_from_slice(sep.as_slice());
        }
        let p = str_to_chars(c.path.as_str());
        out.extend_from_slice(p.as_slice());
        first = false;
    }
    if !first {
        let sep = str_to_chars(", ");
        out.extend_from_slice(sep.as_slice());
    }
    let p = str_to_chars(fallback.path.as_str());
    out.extend_from_slice(p.as_slice());
    proof {
        let p3 = fallback.path@;
        if project is Some && env_override is Some {
            let p1 = opt_candidate(project)->0.path@;
            let p2 = opt_candidate(env_override)->0.path@;
            assert(tried =~= seq![p1, p2, p3]);
            lemma_join3(p1, p2, p3);
        } else if project is Some {
            let p1 = opt_candidate(project)->0.path@;
            assert(tried =~= seq![p1, p3]);
            lemma_join2(p1, p3);
        } else if env_override is Some {
            let p2 = opt_candidate(env_override)->0.path@;
            assert(tried =~= seq![p2, p3]);
            lemma_join2(p2, p3);
        } else {
            assert(tried =~= seq![p3]);
            lemma_join1(p3);
        }
        assert(out@ =~= not_found_message(tried));
    }
    Err(chars_to_string(&out))
}

} // verus!
