//! The catalog: one entry per discovered file, with the selection flag
//! that survives a refresh and the size-derived token estimate.

use vstd::prelude::*;

verus! {

/// The walk's file cap.
pub const MAX_FILES: usize = 10_000;

/// One discovered file.
#[derive(Clone)]
pub struct FileItem {
    /// Absolute path, the key selection is carried forward by.
    pub path: String,
    /// Root-relative, slash-normalized display path, unique per catalog.
    pub rel_path: String,
    /// Whether the user selected the file.
    pub selected: bool,
    /// Lazily loaded content; cleared on every refresh.
    pub content: Option<String>,
    /// Estimated tokens, from file size until content is loaded.
    pub token_count: usize,
}

/// What a scan hands the catalog for one file.
pub struct FoundFile {
    pub path: String,
    pub rel_path: String,
    pub size: u64,
}

/// The size-derived token estimate: one token per four bytes, rounded up.
pub open spec fn est_tokens(size: nat) -> nat {
    (size + 3) / 4
}

/// The estimate, clamped to what a `usize` can hold.
pub open spec fn est_tokens_clamped(size: nat) -> nat {
    if est_tokens(size) > usize::MAX as nat {
        usize::MAX as nat
    } else {
        est_tokens(size)
    }
}

/// Estimates the token count of a file from its size alone.
pub fn estimate_tokens(size: u64) -> (r: usize)
    ensures
        r as nat == est_tokens_clamped(size as nat),
{
    let q = size / 4;
    let ceil: u64 = if size % 4 > 0 {
        q + 1
    } else {
        q
    };
    if ceil > usize::MAX as u64 {
        usize::MAX
    } else {
        ceil as usize
    }
}

/// The path with backslashes turned into forward slashes.
pub open spec fn normalize_slashes(s: Seq<char>) -> Seq<char> {
    s.map_values(|c: char| if c == '\\' { '/' } else { c })
}

/// Normalizes a path for display: every backslash becomes a slash.
pub fn normalize_slashes_exec(s: &str) -> (r: String)
    ensures
        r@ == normalize_slashes(s@),
{
    let v = crate::strutil::str_to_chars(s);
    let mut out: Vec<char> = Vec::new();
    let mut i: usize = 0;
    while i < v.len()
        invariant
            i <= v.len(),
            v@ == s@,
            out@ =~= normalize_slashes(s@).take(i as int),
        decreases v.len() - i,
    {
        let c = v[i];
        if c == '\\' {
            out.push('/');
        } else {
            out.push(c);
        }
        i = i + 1;
    }
    proof {
        assert(normalize_slashes(s@).take(s@.len() as int) =~= normalize_slashes(s@));
    }
    crate::strutil::chars_to_string(&out)
}

/// The selection flag the prior snapshot holds for absolute path `p`:
/// its first entry with that path, or unselected when there is none.
pub open spec fn prev_selected(prev: Seq<FileItem>, p: Seq<char>) -> bool
    decreases prev.len(),
{
    if prev.len() == 0 {
        false
    } else if prev[0].path@ == p {
        prev[0].selected
    } else {
        prev_selected(prev.drop_first(), p)
    }
}

fn lookup_selected(prev: &Vec<FileItem>, p: &String) -> (r: bool)
    ensures
        r == prev_selected(prev@, p@),
{
    let mut j: usize = 0;
    proof {
        assert(prev@.skip(0) =~= prev@);
    }
    while j < prev.len()
        invariant
            j <= prev.len(),
            prev_selected(prev@.skip(j as int), p@) == prev_selected(prev@, p@),
        decreases prev.len() - j,
    {
        proof {
            assert(prev@.skip(j as int)[0] == prev@[j as int]);
            assert(prev@.skip(j as int).drop_first() =~= prev@.skip(j as int + 1));
        }
        if prev[j].path == *p {
            return prev[j].selected;
        }
        j = j + 1;
    }
    false
}

/// Rebuilds the flat entry list from a scan's findings: paths are carried
/// over as given, display paths are slash-normalized, content starts
/// absent, the token estimate comes from the size, and selection is
/// carried forward by absolute path — new paths default to unselected.
pub fn refresh_files(prev: &Vec<FileItem>, found: Vec<FoundFile>) -> (r: Vec<FileItem>)
    ensures
        r@.len() == found@.len(),
        forall|i: int|
            0 <= i < r@.len() ==> {
                &&& (#[trigger] r@[i]).path@ == found@[i].path@
                &&& r@[i].rel_path@ == normalize_slashes(found@[i].rel_path@)
                &&& r@[i].selected == prev_selected(prev@, found@[i].path@)
                &&& r@[i].content is None
                &&& r@[i].token_count as nat == est_tokens_clamped(found@[i].size as nat)
            },
{
    let mut r: Vec<FileItem> = Vec::new();
    let mut i: usize = 0;
    while i < found.len()
        invariant
            i <= found.len(),
            r@.len() == i,
            forall|k: int|
                0 <= k < i ==> {
                    &&& (#[trigger] r@[k]).path@ == found@[k].path@
                    &&& r@[k].rel_path@ == normalize_slashes(found@[k].rel_path@)
                    &&& r@[k].selected == prev_selected(prev@, found@[k].path@)
                    &&& r@[k].content is None
                    &&& r@[k].token_count as nat == est_tokens_clamped(found@[k].size as nat)
                },
        decreases found.len() - i,
    {
        let f = &found[i];
        let rel = normalize_slashes_exec(f.rel_path.as_str());
        let selected = lookup_selected(prev, &f.path);
        let tok = estimate_tokens(f.size);
        let path = f.path.clone();
        r.push(FileItem { path, rel_path: rel, selected, content: None, token_count: tok });
        i = i + 1;
    }
    r
}

} // verus!
