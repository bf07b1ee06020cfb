//! Ignore rules: a rule file is expanded line by line into glob patterns,
//! compiled into two matchers, one consulted for every path and one
//! consulted only for directories (so a rule `build/` prunes the directory
//! `build` and its contents without hiding a plain file named `build`).

use vstd::prelude::*;
use crate::strutil::{trim_spec, trim_chars, lines_of, split_lines, str_to_chars, chars_to_string,
    chars_contain, concat_chars};

verus! {

#[verifier::external_type_specification]
#[verifier::external_body]
pub struct ExGlobSet(globset::GlobSet);

#[verifier::external_type_specification]
#[verifier::external_body]
pub struct ExGlobSetBuilder(globset::GlobSetBuilder);

/// Whether `globset::Glob::new` accepts the pattern.
pub uninterp spec fn glob_pattern_valid(pat: Seq<char>) -> bool;

/// Whether a glob compiled from `pat` matches `path`.
pub uninterp spec fn glob_match(pat: Seq<char>, path: Seq<char>) -> bool;

/// The patterns added to a builder so far, in order.
pub uninterp spec fn builder_patterns(b: globset::GlobSetBuilder) -> Seq<Seq<char>>;

/// The patterns a compiled set was built from, in order.
pub uninterp spec fn globset_patterns(s: globset::GlobSet) -> Seq<Seq<char>>;

/// Whether `globset::GlobSetBuilder::build` succeeds on these patterns:
/// a pure function of the pattern texts alone.
pub uninterp spec fn globset_build_ok(pats: Seq<Seq<char>>) -> bool;

/// Some pattern of `pats` matches `path`.
pub open spec fn any_glob_matches(pats: Seq<Seq<char>>, path: Seq<char>) -> bool {
    exists|i: int| 0 <= i < pats.len() && glob_match(pats[i], path)
}

/// Relies on `globset::GlobSetBuilder::new`: a builder with no patterns.
#[verifier::external_body]
fn new_builder() -> (b: globset::GlobSetBuilder)
    ensures
        builder_patterns(b) == Seq::<Seq<char>>::empty(),
{
    globset::GlobSetBuilder::new()
}

/// Relies on `globset::Glob::new` and `globset::GlobSetBuilder::add`: a
/// well-formed pattern compiles and is appended to the builder's patterns;
/// a malformed one is reported and leaves the builder unchanged.
#[verifier::external_body]
fn builder_add_pattern(b: &mut globset::GlobSetBuilder, pat: &String) -> (ok: bool)
    ensures
        ok == glob_pattern_valid(pat@),
        ok ==> builder_patterns(*final(b)) == builder_patterns(*old(b)).push(pat@),
        !ok ==> builder_patterns(*final(b)) == builder_patterns(*old(b)),
{
    match globset::Glob::new(pat.as_str()) {
        Ok(g) => {
            b.add(g);
            true
        },
        Err(_) => false,
    }
}

/// Relies on `globset::GlobSetBuilder::build`: deterministic in the added
/// patterns, succeeding exactly when they compile together; on success the
/// compiled set holds exactly the builder's patterns.
#[verifier::external_body]
fn build_globset(b: &globset::GlobSetBuilder) -> (r: Option<globset::GlobSet>)
    ensures
        (r is Some) == globset_build_ok(builder_patterns(*b)),
        r matches Some(s) ==> globset_patterns(s) == builder_patterns(*b),
{
    b.build().ok()
}

/// Relies on `globset::GlobSet::is_match`: true exactly when some glob in
/// the set matches the path.
#[verifier::external_body]
fn globset_is_match(s: &globset::GlobSet, path: &str) -> (r: bool)
    ensures
        r == (exists|i: int|
            0 <= i < globset_patterns(*s).len() && glob_match(globset_patterns(*s)[i], path@)),
{
    s.is_match(path)
}

// ---------- pattern expansion ----------

pub open spec fn glob_prefix() -> Seq<char> {
    "**/"@
}

pub open spec fn glob_suffix() -> Seq<char> {
    "/**"@
}

/// The rule text with all trailing slashes removed.
pub open spec fn strip_trailing_slashes(t: Seq<char>) -> Seq<char>
    decreases t.len(),
{
    if t.len() > 0 && t.last() == '/' {
        strip_trailing_slashes(t.drop_last())
    } else {
        t
    }
}

/// Whether the rule holds a glob metacharacter.
pub open spec fn has_glob_meta(t: Seq<char>) -> bool {
    t.contains('*') || t.contains('?') || t.contains('[')
}

/// Of one rule line, the valid patterns tested against every path:
/// a directory rule contributes the pattern for its contents; a path rule,
/// a basename glob and a bare name are anchored at any depth; a bare name
/// additionally covers everything beneath a directory of that name.
pub open spec fn line_all_patterns(line: Seq<char>) -> Seq<Seq<char>> {
    let t = trim_spec(line);
    if t.len() == 0 || t[0] == '#' {
        Seq::empty()
    } else if t.last() == '/' {
        let d = strip_trailing_slashes(t);
        if d.len() == 0 {
            Seq::empty()
        } else {
            keep_valid(glob_prefix() + d + glob_suffix())
        }
    } else if t.contains('/') || has_glob_meta(t) {
        keep_valid(glob_prefix() + t)
    } else {
        keep_valid(glob_prefix() + t) + keep_valid(glob_prefix() + t + glob_suffix())
    }
}

/// Of one rule line, the valid patterns tested against directories only:
/// a directory rule names the directory itself.
pub open spec fn line_dir_patterns(line: Seq<char>) -> Seq<Seq<char>> {
    let t = trim_spec(line);
    if t.len() == 0 || t[0] == '#' {
        Seq::empty()
    } else if t.last() == '/' {
        let d = strip_trailing_slashes(t);
        if d.len() == 0 {
            Seq::empty()
        } else {
            keep_valid(glob_prefix() + d)
        }
    } else {
        Seq::empty()
    }
}

pub open spec fn keep_valid(pat: Seq<char>) -> Seq<Seq<char>> {
    if glob_pattern_valid(pat) {
        seq![pat]
    } else {
        Seq::empty()
    }
}

pub open spec fn accumulate(
    lines: Seq<Seq<char>>,
    acc: Seq<Seq<char>>,
    f: spec_fn(Seq<char>) -> Seq<Seq<char>>,
) -> Seq<Seq<char>>
    decreases lines.len(),
{
    if lines.len() == 0 {
        acc
    } else {
        accumulate(lines.drop_first(), acc + f(lines[0]), f)
    }
}

/// The lines a rule set is compiled from: the rule file's lines, or the
/// fixed default rules when no rule file exists.
pub open spec fn source_lines(text: Option<Seq<char>>) -> Seq<Seq<char>> {
    match text {
        Some(t) => lines_of(t),
        None => seq!["target/"@, ".git/"@, "node_modules/"@, "*.tmp"@],
    }
}

/// All patterns tested against every path, in order of the rules.
pub open spec fn compiled_all(text: Option<Seq<char>>) -> Seq<Seq<char>> {
    accumulate(source_lines(text), Seq::empty(), |l: Seq<char>| line_all_patterns(l))
}

/// All patterns tested against directories only, in order of the rules.
pub open spec fn compiled_dir(text: Option<Seq<char>>) -> Seq<Seq<char>> {
    accumulate(source_lines(text), Seq::empty(), |l: Seq<char>| line_dir_patterns(l))
}

/// The view of the optional rule text.
pub open spec fn opt_text_view(text: Option<&String>) -> Option<Seq<char>> {
    match text {
        Some(t) => Some(t@),
        None => None,
    }
}

// ---------- the compiled rule set ----------

/// An immutable compiled rule set; built wholesale, never mutated.
pub struct IgnoreRules {
    all_set: globset::GlobSet,
    dir_set: globset::GlobSet,
}

impl IgnoreRules {
    /// The patterns consulted for every path.
    pub closed spec fn all_patterns(&self) -> Seq<Seq<char>> {
        globset_patterns(self.all_set)
    }

    /// The patterns additionally consulted for directories.
    pub closed spec fn dir_patterns(&self) -> Seq<Seq<char>> {
        globset_patterns(self.dir_set)
    }

    pub open spec fn spec_matches_file(&self, path: Seq<char>) -> bool {
        any_glob_matches(self.all_patterns(), path)
    }

    pub open spec fn spec_matches_dir(&self, path: Seq<char>) -> bool {
        any_glob_matches(self.all_patterns(), path) || any_glob_matches(
            self.dir_patterns(),
            path,
        )
    }

    /// Whether a file at this root-relative path is ignored.
    pub fn is_ignored_file(&self, path: &str) -> (r: bool)
        ensures
            r == self.spec_matches_file(path@),
    {
        globset_is_match(&self.all_set, path)
    }

    /// Whether a directory at this root-relative path is ignored, pruning
    /// its whole subtree.
    pub fn is_ignored_dir(&self, path: &str) -> (r: bool)
        ensures
            r == self.spec_matches_dir(path@),
    {
        globset_is_match(&self.all_set, path) || globset_is_match(&self.dir_set, path)
    }
}

// ---------- compilation ----------

fn strip_trailing_slashes_exec(t: &Vec<char>) -> (r: Vec<char>)
    ensures
        r@ == strip_trailing_slashes(t@),
{
    let mut j: usize = t.len();
    proof {
        assert(t@.take(t@.len() as int) =~= t@);
    }
    while j > 0 && t[j - 1] == '/'
        invariant
            j <= t.len(),
            strip_trailing_slashes(t@) == strip_trailing_slashes(t@.take(j as int)),
        decreases j,
    {
        proof {
            assert(t@.take(j as int).last() == t@[j - 1]);
            assert(t@.take(j as int).drop_last() =~= t@.take(j - 1));
        }
        j = j - 1;
    }
    let mut r: Vec<char> = Vec::new();
    let mut k: usize = 0;
    while k < j
        invariant
            k <= j <= t.len(),
            r@ =~= t@.take(k as int),
        decreases j - k,
    {
        let c = t[k];
        r.push(c);
        k = k + 1;
    }
    proof {
        if j > 0 {
            assert(t@.take(j as int).last() == t@[j - 1]);
        }
        assert(strip_trailing_slashes(t@.take(j as int)) == t@.take(j as int));
    }
    r
}

fn has_glob_meta_exec(t: &Vec<char>) -> (r: bool)
    ensures
        r == has_glob_meta(t@),
{
    chars_contain(t, '*') || chars_contain(t, '?') || chars_contain(t, '[')
}

/// Adds `pat` to `b` when it is a valid pattern; the builder's patterns
/// grow by exactly `keep_valid(pat@)`.
fn add_if_valid(b: &mut globset::GlobSetBuilder, pat: Vec<char>)
    ensures
        builder_patterns(*final(b)) == builder_patterns(*old(b)) + keep_valid(pat@),
{
    let s = chars_to_string(&pat);
    let ghost pre = builder_patterns(*b);
    let ok = builder_add_pattern(b, &s);
    proof {
        if ok {
            assert(builder_patterns(*b) =~= pre + keep_valid(pat@));
        } else {
            assert(builder_patterns(*b) =~= pre + keep_valid(pat@));
        }
    }
}

/// Compiles rule text (or, when none, the default rules) into a rule set.
/// Blank and `#`-comment lines are skipped, malformed patterns are skipped
/// one by one, and each remaining line is expanded by its shape. A set
/// comes back exactly when both compiled pattern lists build.
pub fn compile_rules(text: Option<&String>) -> (r: Option<IgnoreRules>)
    ensures
        (r is Some) == (globset_build_ok(compiled_all(opt_text_view(text)))
            && globset_build_ok(compiled_dir(opt_text_view(text)))),
        r matches Some(rules) ==> {
            &&& rules.all_patterns() == compiled_all(opt_text_view(text))
            &&& rules.dir_patterns() == compiled_dir(opt_text_view(text))
        },
{
    let ghost tv = opt_text_view(text);
    let lines: Vec<Vec<char>> = match text {
        Some(t) => {
            let chars = str_to_chars(t.as_str());
            split_lines(&chars)
        },
        None => {
            let mut d: Vec<Vec<char>> = Vec::new();
            d.push(str_to_chars("target/"));
            d.push(str_to_chars(".git/"));
            d.push(str_to_chars("node_modules/"));
            d.push(str_to_chars("*.tmp"));
            proof {
                assert(d.deep_view() =~~= source_lines(tv));
            }
            d
        },
    };
    proof {
        assert(lines.deep_view() == source_lines(tv));
    }
    let mut all_b = new_builder();
    let mut dir_b = new_builder();
    let ghost fa = |l: Seq<char>| line_all_patterns(l);
    let ghost fd = |l: Seq<char>| line_dir_patterns(l);
    let mut i: usize = 0;
    proof {
        assert(lines.deep_view().skip(0) =~~= lines.deep_view());
        assert(builder_patterns(all_b) + Seq::<Seq<char>>::empty() =~= builder_patterns(all_b));
    }
    while i < lines.len()
        invariant
            i <= lines.len(),
            lines.deep_view().len() == lines.len(),
            accumulate(lines.deep_view().skip(i as int), builder_patterns(all_b), fa)
                == compiled_all(tv),
            accumulate(lines.deep_view().skip(i as int), builder_patterns(dir_b), fd)
                == compiled_dir(tv),
            fa == (|l: Seq<char>| line_all_patterns(l)),
            fd == (|l: Seq<char>| line_dir_patterns(l)),
        decreases lines.len() - i,
    {
        let ghost rem = lines.deep_view().skip(i as int);
        let ghost lv = lines.deep_view()[i as int];
        proof {
            assert(rem[0] == lv);
            assert(rem.drop_first() =~~= lines.deep_view().skip(i as int + 1));
            assert(lines[i as int]@ == lv);
        }
        let line = &lines[i];
        let t = trim_chars(line);
        let ghost pre_all = builder_patterns(all_b);
        let ghost pre_dir = builder_patterns(dir_b);
        if t.len() == 0 || t[0] == '#' {
            proof {
                assert(line_all_patterns(lv) =~= Seq::<Seq<char>>::empty());
                assert(line_dir_patterns(lv) =~= Seq::<Seq<char>>::empty());
                assert(pre_all + fa(lv) =~= pre_all);
                assert(pre_dir + fd(lv) =~= pre_dir);
            }
        } else if t[t.len() - 1] == '/' {
            proof {
                assert(trim_spec(lv).last() == t@[t@.len() - 1]);
            }
            let d = strip_trailing_slashes_exec(&t);
            if d.len() > 0 {
                let pre = str_to_chars("**/");
                let suf = str_to_chars("/**");
                let base = concat_chars(&pre, &d);
                let all_pat = concat_chars(&base, &suf);
                proof {
                    assert(base@ == glob_prefix() + strip_trailing_slashes(trim_spec(lv)));
                    assert(all_pat@ == (glob_prefix() + strip_trailing_slashes(trim_spec(lv)))
                        + glob_suffix());
                    assert(all_pat@ =~= glob_prefix() + strip_trailing_slashes(trim_spec(lv))
                        + glob_suffix());
                }
                add_if_valid(&mut all_b, all_pat);
                add_if_valid(&mut dir_b, base);
                proof {
                    assert(builder_patterns(all_b) == pre_all + fa(lv));
                    assert(builder_patterns(dir_b) == pre_dir + fd(lv));
                }
            } else {
                proof {
                    assert(pre_all + fa(lv) =~= pre_all);
                    assert(pre_dir + fd(lv) =~= pre_dir);
                }
            }
        } else if chars_contain(&t, '/') || has_glob_meta_exec(&t) {
            let pre = str_to_chars("**/");
            let pat = concat_chars(&pre, &t);
            add_if_valid(&mut all_b, pat);
            proof {
                assert(builder_patterns(all_b) == pre_all + fa(lv));
                assert(pre_dir + fd(lv) =~= pre_dir);
            }
        } else {
            let pre = str_to_chars("**/");
            let suf = str_to_chars("/**");
            let p1 = concat_chars(&pre, &t);
            let p2 = concat_chars(&p1, &suf);
            proof {
                assert(p2@ =~= glob_prefix() + trim_spec(lv) + glob_suffix());
            }
            add_if_valid(&mut all_b, p1);
            add_if_valid(&mut all_b, p2);
            proof {
                assert(builder_patterns(all_b) =~= pre_all + fa(lv));
                assert(pre_dir + fd(lv) =~= pre_dir);
            }
        }
        i = i + 1;
    }
    proof {
        assert(lines.deep_view().skip(lines.len() as int) =~~= Seq::<Seq<char>>::empty());
    }
    let all_set = match build_globset(&all_b) {
        Some(s) => s,
        None => {
            return None;
        },
    };
    let dir_set = match build_globset(&dir_b) {
        Some(s) => s,
        None => {
            return None;
        },
    };
    Some(IgnoreRules { all_set, dir_set })
}

} // verus!
