//! The fast token preview shown while the user works: a character
//! heuristic over the instruction (counted twice, as it is emitted
//! twice), a crude per-entry estimate for the file tree, the catalog's
//! size-based estimates for the selected files, and the included remote
//! texts. A display figure only, never the exact count.

use vstd::prelude::*;
use crate::file_item::FileItem;
use crate::remote::RemoteUrl;

verus! {

/// One token per four characters, rounded up.
pub open spec fn approx_tokens_of(chars: int) -> int {
    (chars + 3) / 4
}

/// A crude size for the rendered tree: each entry's path plus a few
/// glyphs, and a fixed overhead.
pub open spec fn tree_chars_estimate(files: Seq<FileItem>, i: int) -> int
    decreases files.len() - i,
{
    if i < 0 || i >= files.len() {
        16
    } else {
        files[i].rel_path@.len() + 4 + tree_chars_estimate(files, i + 1)
    }
}

/// The size-based estimates of the selected entries.
pub open spec fn selected_tokens(files: Seq<FileItem>, i: int) -> int
    decreases files.len() - i,
{
    if i < 0 || i >= files.len() {
        0
    } else {
        (if files[i].selected {
            files[i].token_count as int
        } else {
            0
        }) + selected_tokens(files, i + 1)
    }
}

/// The estimates of the included remote texts that have content.
pub open spec fn remote_tokens(urls: Seq<RemoteUrl>, i: int) -> int
    decreases urls.len() - i,
{
    if i < 0 || i >= urls.len() {
        0
    } else {
        (if urls[i].included && urls[i].content is Some {
            approx_tokens_of(urls[i].content->0@.len() as int)
        } else {
            0
        }) + remote_tokens(urls, i + 1)
    }
}

/// The whole preview figure; the instruction counts twice.
pub open spec fn approx_total_spec(
    extra: Seq<char>,
    with_tree: bool,
    files: Seq<FileItem>,
    urls: Seq<RemoteUrl>,
) -> int {
    approx_tokens_of(extra.len() as int) + (if with_tree {
        approx_tokens_of(tree_chars_estimate(files, 0))
    } else {
        0
    }) + selected_tokens(files, 0) + remote_tokens(urls, 0) + approx_tokens_of(extra.len() as int)
}

proof fn lemma_tree_chars_nonneg(files: Seq<FileItem>, i: int)
    ensures
        tree_chars_estimate(files, i) >= 16,
    decreases files.len() - i,
{
    if 0 <= i < files.len() {
        lemma_tree_chars_nonneg(files, i + 1);
    }
}

proof fn lemma_selected_tokens_nonneg(files: Seq<FileItem>, i: int)
    ensures
        selected_tokens(files, i) >= 0,
    decreases files.len() - i,
{
    if 0 <= i < files.len() {
        lemma_selected_tokens_nonneg(files, i + 1);
    }
}

proof fn lemma_remote_tokens_nonneg(urls: Seq<RemoteUrl>, i: int)
    ensures
        remote_tokens(urls, i) >= 0,
    decreases urls.len() - i,
{
    if 0 <= i < urls.len() {
        lemma_remote_tokens_nonneg(urls, i + 1);
    }
}

/// Rounds characters up to tokens, one per four.
fn approx_tokens_exec(chars: usize) -> (r: usize)
    ensures
        r as int == approx_tokens_of(chars as int),
{
    let q = chars / 4;
    let rem = chars % 4;
    if rem > 0 {
        q + 1
    } else {
        q
    }
}

/// Computes the preview figure the panel shows.
pub fn approx_token_total(
    extra_text: &str,
    with_tree: bool,
    files: &Vec<FileItem>,
    remotes: &Vec<RemoteUrl>,
) -> (r: usize)
    requires
        approx_total_spec(extra_text@, with_tree, files@, remotes@) <= usize::MAX,
        tree_chars_estimate(files@, 0) <= usize::MAX,
    ensures
        r as int == approx_total_spec(extra_text@, with_tree, files@, remotes@),
{
    proof {
        lemma_tree_chars_nonneg(files@, 0);
        lemma_selected_tokens_nonneg(files@, 0);
        lemma_remote_tokens_nonneg(remotes@, 0);
    }
    let extra_chars = extra_text.unicode_len();
    let instr = approx_tokens_exec(extra_chars);
    let mut total: usize = instr;
    if with_tree {
        let mut chars: usize = 16;
        let mut i: usize = 0;
        while i < files.len()
            invariant
                i <= files@.len(),
                tree_chars_estimate(files@, 0) <= usize::MAX,
                chars as int + tree_chars_estimate(files@, i as int) - 16 == tree_chars_estimate(
                    files@,
                    0,
                ),
                chars >= 16,
            decreases files.len() - i,
        {
            proof {
                lemma_tree_chars_nonneg(files@, i as int + 1);
            }
            let pl = files[i].rel_path.as_str().unicode_len();
            chars = chars + pl + 4;
            i = i + 1;
        }
        total = total + approx_tokens_exec(chars);
    }
    let ghost base = total as int;
    let mut i: usize = 0;
    while i < files.len()
        invariant
            i <= files@.len(),
            total as int == base + selected_tokens(files@, 0) - selected_tokens(files@, i as int),
            approx_total_spec(extra_text@, with_tree, files@, remotes@) <= usize::MAX,
            base + selected_tokens(files@, 0) + remote_tokens(remotes@, 0) + approx_tokens_of(
                extra_text@.len() as int,
            ) == approx_total_spec(extra_text@, with_tree, files@, remotes@),
        decreases files.len() - i,
    {
        proof {
            lemma_selected_tokens_nonneg(files@, i as int + 1);
            lemma_selected_tokens_nonneg(files@, 0);
            lemma_remote_tokens_nonneg(remotes@, 0);
        }
        if files[i].selected {
            total = total + files[i].token_count;
        }
        i = i + 1;
    }
    let ghost base2 = total as int;
    let mut k: usize = 0;
    while k < remotes.len()
        invariant
            k <= remotes@.len(),
            total as int == base2 + remote_tokens(remotes@, 0) - remote_tokens(
                remotes@,
                k as int,
            ),
            approx_total_spec(extra_text@, with_tree, files@, remotes@) <= usize::MAX,
            base2 + remote_tokens(remotes@, 0) + approx_tokens_of(extra_text@.len() as int)
                == approx_total_spec(extra_text@, with_tree, files@, remotes@),
        decreases remotes.len() - k,
    {
        proof {
            lemma_remote_tokens_nonneg(remotes@, k as int + 1);
        }
        if remotes[k].included {
            match &remotes[k].content {
                Some(c) => {
                    let cl = c.as_str().unicode_len();
                    let t = approx_tokens_exec(cl);
                    total = total + t;
                },
                None => {},
            }
        }
        k = k + 1;
    }
    total = total + instr;
    total
}

} // verus!
