//! The folder tree over the flat catalog: a recursive grouping of entry
//! indices by the components of their relative paths. Folder lists are
//! kept alphabetized by construction (an ordered map by key); the tree
//! holds only indices and is rebuilt, never patched.

use vstd::prelude::*;
use vstd::multiset::Multiset;
use crate::file_item::{FileItem, normalize_slashes};
use crate::sort::{Keyed, keyed_views, sort_pairs, keyed_view, sort_keyed};
use crate::strutil::{seq_lt, seq_le, chars_le, split_seq, split_chars, str_to_chars,
    chars_to_string, lemma_seq_le_antisym, lemma_seq_le_total, lemma_seq_lt_trans};

verus! {

broadcast use vstd::seq_lib::group_to_multiset_ensures;

/// One subtree, keyed by folder name.
pub struct FolderNode {
    pub name: String,
    pub tree: FileTree,
}

/// A recursive grouping of catalog indices: subtrees per folder name, and
/// the indices of the files directly inside this folder.
pub struct FileTree {
    pub folders: Vec<FolderNode>,
    pub files: Vec<usize>,
}

impl Default for FileTree {
    /// An empty tree.
    fn default() -> (r: FileTree)
        ensures
            r.folders@.len() == 0,
            r.files@.len() == 0,
    {
        FileTree { folders: Vec::new(), files: Vec::new() }
    }
}

// ---------- well-formedness ----------

/// Folder names are strictly increasing: alphabetized and unique.
pub open spec fn names_sorted(fs: Seq<FolderNode>) -> bool {
    forall|i: int, j: int| 0 <= i < j < fs.len() ==> seq_lt(fs[i].name@, fs[j].name@)
}

/// Every file index is within the catalog, and folder names are sorted,
/// throughout the tree.
pub open spec fn tree_wf(t: FileTree, n: nat) -> bool
    decreases t, t.folders@.len() + 1nat,
{
    &&& (forall|i: int| 0 <= i < t.files@.len() ==> (t.files@[i] as int) < n as int)
    &&& names_sorted(t.folders@)
    &&& subtrees_wf(t, 0, n)
}

pub open spec fn subtrees_wf(t: FileTree, i: int, n: nat) -> bool
    decreases t, t.folders@.len() - i,
{
    if i < 0 || i >= t.folders@.len() {
        true
    } else {
        tree_wf(t.folders@[i].tree, n) && subtrees_wf(t, i + 1, n)
    }
}

proof fn lemma_subtrees_wf_index(t: FileTree, i: int, n: nat, k: int)
    requires
        subtrees_wf(t, i, n),
        i <= k < t.folders@.len(),
        0 <= i,
    ensures
        tree_wf(t.folders@[k].tree, n),
    decreases k - i,
{
    if k > i {
        lemma_subtrees_wf_index(t, i + 1, n, k);
    }
}

proof fn lemma_subtrees_wf_build(t: FileTree, i: int, n: nat)
    requires
        0 <= i,
        forall|k: int| i <= k < t.folders@.len() ==> tree_wf(#[trigger] t.folders@[k].tree, n),
    ensures
        subtrees_wf(t, i, n),
    decreases t.folders@.len() - i,
{
    if i < t.folders@.len() {
        lemma_subtrees_wf_build(t, i + 1, n);
    }
}

// ---------- placement ----------

/// The non-empty components of a slash-normalized relative path.
pub open spec fn nonempty_parts(parts: Seq<Seq<char>>) -> Seq<Seq<char>>
    decreases parts.len(),
{
    if parts.len() == 0 {
        Seq::empty()
    } else if parts[0].len() > 0 {
        seq![parts[0]] + nonempty_parts(parts.drop_first())
    } else {
        nonempty_parts(parts.drop_first())
    }
}

/// The path components an entry is placed by: its relative path, split on
/// `/`, empty components dropped.
pub open spec fn path_parts(rel: Seq<char>) -> Seq<Seq<char>> {
    nonempty_parts(split_seq(normalize_slashes(rel), '/'))
}

/// Whether index `idx` sits in the tree at the node the components lead
/// to: all components but the last name folders, the last is the file.
pub open spec fn tree_has_at(t: FileTree, parts: Seq<Seq<char>>, idx: int) -> bool
    decreases parts.len(),
{
    if parts.len() == 0 {
        false
    } else if parts.len() == 1 {
        exists|k: int| 0 <= k < t.files@.len() && t.files@[k] as int == idx
    } else {
        exists|k: int|
            0 <= k < t.folders@.len() && (#[trigger] t.folders@[k]).name@ == parts[0]
                && tree_has_at(t.folders@[k].tree, parts.drop_first(), idx)
    }
}

fn nonempty_parts_exec(parts: Vec<Vec<char>>) -> (r: Vec<Vec<char>>)
    ensures
        r.deep_view() == nonempty_parts(parts.deep_view()),
{
    let ghost all = parts.deep_view();
    let mut out: Vec<Vec<char>> = Vec::new();
    let mut i: usize = 0;
    proof {
        assert(all.skip(0) =~~= all);
        assert(out.deep_view() + nonempty_parts(all.skip(0)) =~~= nonempty_parts(all));
    }
    while i < parts.len()
        invariant
            i <= parts.len(),
            all == parts.deep_view(),
            out.deep_view() + nonempty_parts(all.skip(i as int)) == nonempty_parts(all),
        decreases parts.len() - i,
    {
        proof {
            assert(all.skip(i as int)[0] == all[i as int]);
            assert(all.skip(i as int).drop_first() =~~= all.skip(i as int + 1));
            assert(all[i as int] == parts@[i as int]@);
        }
        if parts[i].len() > 0 {
            let ghost odv = out.deep_view();
            let p = parts[i].clone();
            proof {
                assert(p@ =~= parts@[i as int]@);
            }
            out.push(p);
            proof {
                assert(out.deep_view() =~~= odv.push(all[i as int]));
                assert(odv.push(all[i as int]) + nonempty_parts(all.skip(i as int + 1)) =~~= odv + (
                seq![all[i as int]] + nonempty_parts(all.skip(i as int + 1))));
            }
        }
        i = i + 1;
    }
    proof {
        assert(all.skip(all.len() as int) =~~= Seq::<Seq<char>>::empty());
        assert(out.deep_view() + nonempty_parts(all.skip(all.len() as int)) =~~= out.deep_view());
    }
    out
}

/// Splits a relative path into the components that place it in the tree.
pub fn path_parts_exec(rel: &str) -> (r: Vec<Vec<char>>)
    ensures
        r.deep_view() == path_parts(rel@),
{
    let norm = crate::file_item::normalize_slashes_exec(rel);
    let chars = str_to_chars(norm.as_str());
    let parts = split_chars(&chars, '/');
    nonempty_parts_exec(parts)
}

// ---------- occupancy ----------

/// Every index the tree holds, in traversal order, with multiplicity.
pub open spec fn tree_all_indices(t: FileTree) -> Seq<int>
    decreases t, t.folders@.len() + 1nat,
{
    t.files@.map_values(|u: usize| u as int) + folders_all_indices(t, 0)
}

pub open spec fn folders_all_indices(t: FileTree, i: int) -> Seq<int>
    decreases t, t.folders@.len() - i,
{
    if i < 0 || i >= t.folders@.len() {
        Seq::empty()
    } else {
        tree_all_indices(t.folders@[i].tree) + folders_all_indices(t, i + 1)
    }
}

proof fn lemma_folders_all_suffix_eq(t1: FileTree, t2: FileTree, i: int)
    requires
        t2.folders@.len() == t1.folders@.len(),
        forall|m: int| i <= m < t1.folders@.len() ==> t2.folders@[m] == t1.folders@[m],
        0 <= i,
    ensures
        folders_all_indices(t2, i) == folders_all_indices(t1, i),
    decreases t1.folders@.len() - i,
{
    if i < t1.folders@.len() {
        lemma_folders_all_suffix_eq(t1, t2, i + 1);
    }
}

proof fn lemma_folders_all_update(t1: FileTree, t2: FileTree, k: int, i: int)
    requires
        t2.folders@.len() == t1.folders@.len(),
        0 <= k < t1.folders@.len(),
        forall|m: int| 0 <= m < t1.folders@.len() && m != k ==> t2.folders@[m] == t1.folders@[m],
        0 <= i <= k,
    ensures
        folders_all_indices(t2, i).to_multiset().add(
            tree_all_indices(t1.folders@[k].tree).to_multiset(),
        ) == folders_all_indices(t1, i).to_multiset().add(
            tree_all_indices(t2.folders@[k].tree).to_multiset(),
        ),
    decreases k - i,
{
    let ta1 = tree_all_indices(t1.folders@[k].tree).to_multiset();
    let ta2 = tree_all_indices(t2.folders@[k].tree).to_multiset();
    if i == k {
        lemma_folders_all_suffix_eq(t1, t2, k + 1);
        let rest = folders_all_indices(t1, k + 1);
        vstd::seq_lib::lemma_multiset_commutative(tree_all_indices(t2.folders@[k].tree), rest);
        vstd::seq_lib::lemma_multiset_commutative(tree_all_indices(t1.folders@[k].tree), rest);
        assert(folders_all_indices(t2, k).to_multiset().add(ta1) =~= folders_all_indices(
            t1,
            k,
        ).to_multiset().add(ta2));
    } else {
        lemma_folders_all_update(t1, t2, k, i + 1);
        vstd::seq_lib::lemma_multiset_commutative(
            tree_all_indices(t2.folders@[i].tree),
            folders_all_indices(t2, i + 1),
        );
        vstd::seq_lib::lemma_multiset_commutative(
            tree_all_indices(t1.folders@[i].tree),
            folders_all_indices(t1, i + 1),
        );
        assert(t2.folders@[i] == t1.folders@[i]);
        let a2 = folders_all_indices(t2, i + 1).to_multiset();
        let a1 = folders_all_indices(t1, i + 1).to_multiset();
        let tm = tree_all_indices(t1.folders@[i].tree).to_multiset();
        assert(folders_all_indices(t2, i).to_multiset() == tm.add(a2));
        assert(folders_all_indices(t1, i).to_multiset() == tm.add(a1));
        assert(a2.add(ta1) == a1.add(ta2));
        assert forall|x: int|
            #![trigger tm.add(a2).add(ta1).count(x)]
            tm.add(a2).add(ta1).count(x) == tm.add(a1).add(ta2).count(x) by {
            assert(a2.add(ta1).count(x) == a1.add(ta2).count(x));
        }
        assert(tm.add(a2).add(ta1) =~= tm.add(a1).add(ta2));
    }
}

proof fn lemma_folders_all_shift(t1: FileTree, t2: FileTree, k: int, j: int)
    requires
        t2.folders@.len() == t1.folders@.len() + 1,
        0 <= k <= t1.folders@.len(),
        forall|m: int| k <= m < t1.folders@.len() ==> t2.folders@[m + 1] == t1.folders@[m],
        k <= j <= t1.folders@.len(),
    ensures
        folders_all_indices(t2, j + 1) == folders_all_indices(t1, j),
    decreases t1.folders@.len() - j,
{
    if j < t1.folders@.len() {
        lemma_folders_all_shift(t1, t2, k, j + 1);
        assert(t2.folders@[j + 1] == t1.folders@[j]);
    }
}

proof fn lemma_folders_all_insert(t1: FileTree, t2: FileTree, k: int, i: int)
    requires
        t2.folders@.len() == t1.folders@.len() + 1,
        0 <= k <= t1.folders@.len(),
        forall|m: int| 0 <= m < k ==> t2.folders@[m] == t1.folders@[m],
        forall|m: int| k <= m < t1.folders@.len() ==> t2.folders@[m + 1] == t1.folders@[m],
        0 <= i <= k,
    ensures
        folders_all_indices(t2, i).to_multiset() == folders_all_indices(t1, i).to_multiset().add(
            tree_all_indices(t2.folders@[k].tree).to_multiset(),
        ),
    decreases k - i,
{
    let ta2 = tree_all_indices(t2.folders@[k].tree).to_multiset();
    if i == k {
        lemma_folders_all_shift(t1, t2, k, k);
        vstd::seq_lib::lemma_multiset_commutative(
            tree_all_indices(t2.folders@[k].tree),
            folders_all_indices(t2, k + 1),
        );
        assert(folders_all_indices(t2, k).to_multiset() =~= folders_all_indices(
            t1,
            k,
        ).to_multiset().add(ta2));
    } else {
        lemma_folders_all_insert(t1, t2, k, i + 1);
        vstd::seq_lib::lemma_multiset_commutative(
            tree_all_indices(t2.folders@[i].tree),
            folders_all_indices(t2, i + 1),
        );
        vstd::seq_lib::lemma_multiset_commutative(
            tree_all_indices(t1.folders@[i].tree),
            folders_all_indices(t1, i + 1),
        );
        assert(t2.folders@[i] == t1.folders@[i]);
        assert(folders_all_indices(t2, i).to_multiset() =~= folders_all_indices(
            t1,
            i,
        ).to_multiset().add(ta2));
    }
}

/// No folder node stands empty: every folder's subtree holds at least one
/// entry, so (with occupancy and placement) every folder lies along the
/// path of some placed entry.
pub open spec fn folders_inhabited(t: FileTree) -> bool
    decreases t, t.folders@.len() + 1nat,
{
    subtrees_inhabited(t, 0)
}

pub open spec fn subtrees_inhabited(t: FileTree, i: int) -> bool
    decreases t, t.folders@.len() - i,
{
    if i < 0 || i >= t.folders@.len() {
        true
    } else {
        tree_all_indices(t.folders@[i].tree).len() > 0 && folders_inhabited(t.folders@[i].tree)
            && subtrees_inhabited(t, i + 1)
    }
}

proof fn lemma_subtrees_inhabited_index(t: FileTree, i: int, k: int)
    requires
        subtrees_inhabited(t, i),
        0 <= i <= k < t.folders@.len(),
    ensures
        tree_all_indices(t.folders@[k].tree).len() > 0,
        folders_inhabited(t.folders@[k].tree),
    decreases k - i,
{
    if k > i {
        lemma_subtrees_inhabited_index(t, i + 1, k);
    }
}

proof fn lemma_subtrees_inhabited_build(t: FileTree, i: int)
    requires
        0 <= i,
        forall|k: int|
            i <= k < t.folders@.len() ==> tree_all_indices(
                (#[trigger] t.folders@[k]).tree,
            ).len() > 0 && folders_inhabited(t.folders@[k].tree),
    ensures
        subtrees_inhabited(t, i),
    decreases t.folders@.len() - i,
{
    if i < t.folders@.len() {
        lemma_subtrees_inhabited_build(t, i + 1);
    }
}

/// The catalog indices the tree is built to hold: every entry whose
/// relative path has at least one component.
pub open spec fn placed_indices(files: Seq<FileItem>, i: int) -> Seq<int>
    decreases files.len() - i,
{
    if i < 0 || i >= files.len() {
        Seq::empty()
    } else {
        (if path_parts(files[i].rel_path@).len() > 0 {
            seq![i]
        } else {
            Seq::empty()
        }) + placed_indices(files, i + 1)
    }
}

proof fn lemma_placed_count(files: Seq<FileItem>, i: int, x: int)
    requires
        0 <= i,
    ensures
        placed_indices(files, i).to_multiset().count(x) == if i <= x < files.len() && path_parts(
            files[x].rel_path@,
        ).len() > 0 {
            1int
        } else {
            0int
        },
    decreases files.len() - i,
{
    if i >= files.len() {
        assert(placed_indices(files, i).to_multiset().count(x) == 0) by {
            assert(!placed_indices(files, i).contains(x));
        }
    } else {
        lemma_placed_count(files, i + 1, x);
        let head: Seq<int> = if path_parts(files[i].rel_path@).len() > 0 {
            seq![i]
        } else {
            Seq::empty()
        };
        vstd::seq_lib::lemma_multiset_commutative(head, placed_indices(files, i + 1));
        if path_parts(files[i].rel_path@).len() > 0 {
            assert(head =~= Seq::<int>::empty().push(i));
            assert(head.to_multiset() =~= Multiset::<int>::empty().insert(i));
        } else {
            assert(!head.contains(x));
            assert(head.to_multiset().count(x) == 0);
        }
    }
}

// ---------- building ----------

fn chars_le_str(part: &Vec<char>, name: &String) -> (r: bool)
    ensures
        r == seq_le(part@, name@),
{
    let nv = str_to_chars(name.as_str());
    chars_le(part, &nv)
}

fn str_le_chars(name: &String, part: &Vec<char>) -> (r: bool)
    ensures
        r == seq_le(name@, part@),
{
    let nv = str_to_chars(name.as_str());
    chars_le(&nv, part)
}

#[verifier::rlimit(60)]
fn insert_path(t: FileTree, parts: &Vec<Vec<char>>, j: usize, idx: usize, Ghost(n): Ghost<nat>) -> (r:
    FileTree)
    requires
        tree_wf(t, n),
        (idx as int) < n as int,
        j < parts@.len(),
    ensures
        tree_wf(r, n),
        tree_has_at(r, parts.deep_view().skip(j as int), idx as int),
        forall|q: Seq<Seq<char>>, m: int| tree_has_at(t, q, m) ==> tree_has_at(r, q, m),
        tree_all_indices(r).to_multiset() == tree_all_indices(t).to_multiset().insert(idx as int),
        folders_inhabited(t) ==> folders_inhabited(r),
    decreases parts@.len() - j,
{
    let ghost t0 = t;
    let ghost rest = parts.deep_view().skip(j as int);
    proof {
        assert(rest[0] == parts.deep_view()[j as int]);
        assert(parts.deep_view()[j as int] == parts@[j as int]@);
    }
    let mut cur = t;
    proof {
        assert(j < parts.len());
    }
    if j + 1 == parts.len() {
        cur.files.push(idx);
        proof {
            assert(cur.files@ =~= t0.files@.push(idx));
            assert(rest.len() == 1);
            let k = t0.files@.len() as int;
            assert(cur.files@[k] as int == idx as int);
            assert(tree_has_at(cur, rest, idx as int));
            assert forall|q: Seq<Seq<char>>, m: int| tree_has_at(t0, q, m) implies tree_has_at(
                cur,
                q,
                m,
            ) by {
                if q.len() == 1 {
                    let k0 = choose|k0: int|
                        0 <= k0 < t0.files@.len() && t0.files@[k0] as int == m;
                    assert(cur.files@[k0] as int == m);
                } else if q.len() > 1 {
                    let k0 = choose|k0: int|
                        0 <= k0 < t0.folders@.len() && (#[trigger] t0.folders@[k0]).name@ == q[0]
                            && tree_has_at(t0.folders@[k0].tree, q.drop_first(), m);
                    assert(cur.folders@[k0] == t0.folders@[k0]);
                    assert(tree_has_at(cur.folders@[k0].tree, q.drop_first(), m));
                }
            }
            assert forall|m: int| 0 <= m < cur.folders@.len() implies tree_wf(
                #[trigger] cur.folders@[m].tree,
                n,
            ) by {
                lemma_subtrees_wf_index(t0, 0, n, m);
            }
            lemma_subtrees_wf_build(cur, 0, n);
            lemma_folders_all_suffix_eq(t0, cur, 0);
            let f = |u: usize| u as int;
            assert(cur.files@.map_values(f) =~= t0.files@.map_values(f).push(idx as int));
            assert(t0.files@.map_values(f).push(idx as int) =~= t0.files@.map_values(f) + seq![
                idx as int,
            ]);
            let fm = t0.files@.map_values(f);
            let fa = folders_all_indices(t0, 0);
            vstd::seq_lib::lemma_multiset_commutative(fm, fa);
            vstd::seq_lib::lemma_multiset_commutative(fm + seq![idx as int], fa);
            vstd::seq_lib::lemma_multiset_commutative(fm, seq![idx as int]);
            assert(seq![idx as int] =~= Seq::<int>::empty().push(idx as int));
            assert(seq![idx as int].to_multiset() =~= Multiset::<int>::empty().insert(idx as int));
            assert forall|x: int|
                #![trigger tree_all_indices(cur).to_multiset().count(x)]
                tree_all_indices(cur).to_multiset().count(x) == tree_all_indices(
                t0,
            ).to_multiset().insert(idx as int).count(x) by {}
            assert(tree_all_indices(cur).to_multiset() =~= tree_all_indices(
                t0,
            ).to_multiset().insert(idx as int));
            if folders_inhabited(t0) {
                assert forall|m: int|
                    0 <= m < cur.folders@.len() implies tree_all_indices(
                    (#[trigger] cur.folders@[m]).tree,
                ).len() > 0 && folders_inhabited(cur.folders@[m].tree) by {
                    lemma_subtrees_inhabited_index(t0, 0, m);
                    assert(cur.folders@[m] == t0.folders@[m]);
                }
                lemma_subtrees_inhabited_build(cur, 0);
            }
        }
        cur
    } else {
        let part = &parts[j];
        let mut k: usize = 0;
        while k < cur.folders.len() && !chars_le_str(part, &cur.folders[k].name)
            invariant
                cur == t0,
                j < parts@.len(),
                part@ == parts@[j as int]@,
                k <= cur.folders@.len(),
                forall|m: int| 0 <= m < k ==> !seq_le(parts@[j as int]@, t0.folders@[m].name@),
            decreases cur.folders@.len() - k,
        {
            k = k + 1;
        }
        proof {
            assert forall|m: int| 0 <= m < k implies seq_lt(
                #[trigger] t0.folders@[m].name@,
                parts@[j as int]@,
            ) by {
                lemma_seq_le_total(parts@[j as int]@, t0.folders@[m].name@);
            }
        }
        if k < cur.folders.len() && str_le_chars(&cur.folders[k].name, part) {
            proof {
                lemma_seq_le_antisym(t0.folders@[k as int].name@, parts@[j as int]@);
                lemma_subtrees_wf_index(t0, 0, n, k as int);
            }
            let node = cur.folders.remove(k);
            let ghost ar = t0.folders@.remove(k as int);
            proof {
                t0.folders@.remove_ensures(k as int);
            }
            let sub = insert_path(node.tree, parts, j + 1, idx, Ghost(n));
            proof {
                assert(parts.deep_view().skip(j as int + 1) =~~= rest.drop_first());
            }
            let name = node.name;
            let newnode = FolderNode { name, tree: sub };
            let ghost gnew = newnode;
            cur.folders.insert(k, newnode);
            proof {
                assert(cur.folders@ == ar.insert(k as int, gnew));
                ar.insert_ensures(k as int, gnew);
                assert(cur.folders@.len() == t0.folders@.len());
                assert(cur.folders@[k as int] == gnew);
                assert(gnew.name@ == t0.folders@[k as int].name@);
                assert forall|m: int|
                    0 <= m < cur.folders@.len() && m != k implies cur.folders@[m] == t0.folders@[m]
                by {
                    if m > k {
                        assert(cur.folders@[m] == ar[m - 1]);
                        assert(ar[m - 1] == t0.folders@[m]);
                    } else {
                        assert(cur.folders@[m] == ar[m]);
                        assert(ar[m] == t0.folders@[m]);
                    }
                }
                assert forall|a: int, b: int| 0 <= a < b < cur.folders@.len() implies seq_lt(
                    cur.folders@[a].name@,
                    cur.folders@[b].name@,
                ) by {
                    assert(cur.folders@[a].name@ == t0.folders@[a].name@);
                    assert(cur.folders@[b].name@ == t0.folders@[b].name@);
                }
                assert forall|m: int| 0 <= m < cur.folders@.len() implies tree_wf(
                    #[trigger] cur.folders@[m].tree,
                    n,
                ) by {
                    if m != k {
                        lemma_subtrees_wf_index(t0, 0, n, m);
                    }
                }
                lemma_subtrees_wf_build(cur, 0, n);
                assert(tree_has_at(cur.folders@[k as int].tree, rest.drop_first(), idx as int));
                assert(tree_has_at(cur, rest, idx as int));
                assert forall|q: Seq<Seq<char>>, m: int| tree_has_at(t0, q, m) implies tree_has_at(
                    cur,
                    q,
                    m,
                ) by {
                    if q.len() == 1 {
                        let k0 = choose|k0: int|
                            0 <= k0 < t0.files@.len() && t0.files@[k0] as int == m;
                        assert(cur.files@[k0] as int == m);
                    } else if q.len() > 1 {
                        let k0 = choose|k0: int|
                            0 <= k0 < t0.folders@.len() && (#[trigger] t0.folders@[k0]).name@
                                == q[0] && tree_has_at(t0.folders@[k0].tree, q.drop_first(), m);
                        if k0 == k {
                            assert(tree_has_at(cur.folders@[k as int].tree, q.drop_first(), m));
                        } else {
                            assert(cur.folders@[k0] == t0.folders@[k0]);
                        }
                    }
                }
                lemma_folders_all_update(t0, cur, k as int, 0);
                let f = |u: usize| u as int;
                let fm = t0.files@.map_values(f);
                assert(cur.files@.map_values(f) =~= fm);
                let f1 = folders_all_indices(t0, 0).to_multiset();
                let f2 = folders_all_indices(cur, 0).to_multiset();
                let told = tree_all_indices(t0.folders@[k as int].tree).to_multiset();
                let tnew = tree_all_indices(cur.folders@[k as int].tree).to_multiset();
                assert(tnew == told.insert(idx as int));
                assert(f2.add(told) == f1.add(told.insert(idx as int)));
                assert forall|x: int| #![trigger f2.count(x)] f2.count(x) == f1.insert(
                    idx as int,
                ).count(x) by {
                    assert(f2.add(told).count(x) == f1.add(told.insert(idx as int)).count(x));
                }
                assert(f2 =~= f1.insert(idx as int));
                vstd::seq_lib::lemma_multiset_commutative(fm, folders_all_indices(t0, 0));
                vstd::seq_lib::lemma_multiset_commutative(
                    cur.files@.map_values(f),
                    folders_all_indices(cur, 0),
                );
                assert forall|x: int|
                    #![trigger tree_all_indices(cur).to_multiset().count(x)]
                    tree_all_indices(cur).to_multiset().count(x) == tree_all_indices(
                    t0,
                ).to_multiset().insert(idx as int).count(x) by {}
                assert(tree_all_indices(cur).to_multiset() =~= tree_all_indices(
                    t0,
                ).to_multiset().insert(idx as int));
                if folders_inhabited(t0) {
                    lemma_subtrees_inhabited_index(t0, 0, k as int);
                    assert(folders_inhabited(gnew.tree));
                    assert(tree_all_indices(gnew.tree).to_multiset().len() == tree_all_indices(
                        t0.folders@[k as int].tree,
                    ).to_multiset().len() + 1);
                    assert(tree_all_indices(gnew.tree).len() > 0);
                    assert forall|m: int|
                        0 <= m < cur.folders@.len() implies tree_all_indices(
                        (#[trigger] cur.folders@[m]).tree,
                    ).len() > 0 && folders_inhabited(cur.folders@[m].tree) by {
                        if m != k {
                            lemma_subtrees_inhabited_index(t0, 0, m);
                            assert(cur.folders@[m] == t0.folders@[m]);
                        }
                    }
                    lemma_subtrees_inhabited_build(cur, 0);
                }
            }
            cur
        } else {
            let ghost pv = parts@[j as int]@;
            proof {
                // the new name sits strictly between its neighbours
                if k < t0.folders@.len() {
                    assert(seq_le(pv, t0.folders@[k as int].name@));
                    assert(!seq_le(t0.folders@[k as int].name@, pv));
                    assert(pv != t0.folders@[k as int].name@);
                    assert(seq_lt(pv, t0.folders@[k as int].name@));
                }
            }
            let empty = FileTree { folders: Vec::new(), files: Vec::new() };
            let ghost gempty = empty;
            proof {
                lemma_subtrees_wf_build(empty, 0, n);
            }
            let sub = insert_path(empty, parts, j + 1, idx, Ghost(n));
            proof {
                assert(parts.deep_view().skip(j as int + 1) =~~= rest.drop_first());
            }
            let name = chars_to_string(part);
            let newnode = FolderNode { name, tree: sub };
            let ghost gnew = newnode;
            cur.folders.insert(k, newnode);
            proof {
                assert(cur.folders@ == t0.folders@.insert(k as int, gnew));
                t0.folders@.insert_ensures(k as int, gnew);
                assert(cur.folders@[k as int] == gnew);
                assert(gnew.name@ == pv);
                assert forall|a: int, b: int| 0 <= a < b < cur.folders@.len() implies seq_lt(
                    cur.folders@[a].name@,
                    cur.folders@[b].name@,
                ) by {
                    if b < k {
                        assert(cur.folders@[a] == t0.folders@[a]);
                        assert(cur.folders@[b] == t0.folders@[b]);
                    } else if b == k {
                        assert(cur.folders@[a] == t0.folders@[a]);
                        assert(seq_lt(t0.folders@[a].name@, pv));
                    } else if a < k {
                        assert(cur.folders@[a] == t0.folders@[a]);
                        assert(cur.folders@[b] == t0.folders@[b - 1]);
                        if a == b - 1 {
                        } else {
                            assert(seq_lt(t0.folders@[a].name@, t0.folders@[b - 1].name@));
                        }
                    } else if a == k {
                        assert(cur.folders@[b] == t0.folders@[b - 1]);
                        assert(b - 1 >= k);
                        assert(seq_lt(pv, t0.folders@[k as int].name@));
                        if b - 1 > k {
                            assert(seq_lt(t0.folders@[k as int].name@, t0.folders@[b - 1].name@));
                            lemma_seq_lt_trans(pv, t0.folders@[k as int].name@, t0.folders@[b - 1].name@);
                        }
                    } else {
                        assert(cur.folders@[a] == t0.folders@[a - 1]);
                        assert(cur.folders@[b] == t0.folders@[b - 1]);
                    }
                }
                assert forall|m: int| 0 <= m < cur.folders@.len() implies tree_wf(
                    #[trigger] cur.folders@[m].tree,
                    n,
                ) by {
                    if m < k {
                        assert(cur.folders@[m] == t0.folders@[m]);
                        lemma_subtrees_wf_index(t0, 0, n, m);
                    } else if m > k {
                        assert(cur.folders@[m] == t0.folders@[m - 1]);
                        lemma_subtrees_wf_index(t0, 0, n, m - 1);
                    }
                }
                lemma_subtrees_wf_build(cur, 0, n);
                assert(tree_has_at(cur.folders@[k as int].tree, rest.drop_first(), idx as int));
                assert(tree_has_at(cur, rest, idx as int));
                assert forall|q: Seq<Seq<char>>, m: int| tree_has_at(t0, q, m) implies tree_has_at(
                    cur,
                    q,
                    m,
                ) by {
                    if q.len() == 1 {
                        let k0 = choose|k0: int|
                            0 <= k0 < t0.files@.len() && t0.files@[k0] as int == m;
                        assert(cur.files@[k0] as int == m);
                    } else if q.len() > 1 {
                        let k0 = choose|k0: int|
                            0 <= k0 < t0.folders@.len() && (#[trigger] t0.folders@[k0]).name@
                                == q[0] && tree_has_at(t0.folders@[k0].tree, q.drop_first(), m);
                        if k0 < k {
                            assert(cur.folders@[k0] == t0.folders@[k0]);
                        } else {
                            assert(cur.folders@[k0 + 1] == t0.folders@[k0]);
                        }
                    }
                }
                lemma_folders_all_insert(t0, cur, k as int, 0);
                let f = |u: usize| u as int;
                let fm = t0.files@.map_values(f);
                assert(cur.files@.map_values(f) =~= fm);
                let f1 = folders_all_indices(t0, 0).to_multiset();
                let f2 = folders_all_indices(cur, 0).to_multiset();
                let tnew = tree_all_indices(cur.folders@[k as int].tree).to_multiset();
                assert(tree_all_indices(gempty) =~= Seq::<int>::empty());
                assert(!tree_all_indices(gempty).contains(0));
                assert forall|x: int|
                    #![trigger tree_all_indices(gempty).to_multiset().count(x)]
                    tree_all_indices(gempty).to_multiset().count(x) == 0 by {
                    assert(!tree_all_indices(gempty).contains(x));
                }
                assert(tnew == tree_all_indices(gempty).to_multiset().insert(idx as int));
                assert(f2 == f1.add(tnew));
                vstd::seq_lib::lemma_multiset_commutative(fm, folders_all_indices(t0, 0));
                vstd::seq_lib::lemma_multiset_commutative(
                    cur.files@.map_values(f),
                    folders_all_indices(cur, 0),
                );
                assert forall|x: int|
                    #![trigger tree_all_indices(cur).to_multiset().count(x)]
                    tree_all_indices(cur).to_multiset().count(x) == tree_all_indices(
                    t0,
                ).to_multiset().insert(idx as int).count(x) by {}
                assert(tree_all_indices(cur).to_multiset() =~= tree_all_indices(
                    t0,
                ).to_multiset().insert(idx as int));
                if folders_inhabited(t0) {
                    lemma_subtrees_inhabited_build(gempty, 0);
                    assert(folders_inhabited(gnew.tree));
                    assert(tree_all_indices(gnew.tree).to_multiset().len() == tree_all_indices(
                        gempty,
                    ).to_multiset().len() + 1);
                    assert(tree_all_indices(gnew.tree).len() > 0);
                    assert forall|m: int|
                        0 <= m < cur.folders@.len() implies tree_all_indices(
                        (#[trigger] cur.folders@[m]).tree,
                    ).len() > 0 && folders_inhabited(cur.folders@[m].tree) by {
                        if m < k {
                            lemma_subtrees_inhabited_index(t0, 0, m);
                            assert(cur.folders@[m] == t0.folders@[m]);
                        } else if m > k {
                            lemma_subtrees_inhabited_index(t0, 0, m - 1);
                            assert(cur.folders@[m] == t0.folders@[m - 1]);
                        }
                    }
                    lemma_subtrees_inhabited_build(cur, 0);
                }
            }
            cur
        }
    }
}

/// Builds the tree fresh from the flat catalog: each entry is placed by
/// the components of its relative path; an entry whose path has no
/// components is not placed. Folder names come out alphabetized.
pub fn build_file_tree(files: &Vec<FileItem>) -> (t: FileTree)
    ensures
        tree_wf(t, files@.len() as nat),
        forall|i: int|
            0 <= i < files@.len() && path_parts(files@[i].rel_path@).len() > 0 ==> tree_has_at(
                t,
                path_parts(files@[i].rel_path@),
                i,
            ),
        forall|i: int|
            0 <= i < files@.len() ==> tree_all_indices(t).to_multiset().count(i) == (
            if path_parts(files@[i].rel_path@).len() > 0 {
                1int
            } else {
                0int
            }),
        folders_inhabited(t),
{
    broadcast use vstd::seq_lib::group_to_multiset_ensures;

    let mut root = FileTree { folders: Vec::new(), files: Vec::new() };
    let ghost n = files@.len() as nat;
    proof {
        lemma_subtrees_wf_build(root, 0, n);
        lemma_subtrees_inhabited_build(root, 0);
        assert(tree_all_indices(root) =~= Seq::<int>::empty());
        assert forall|x: int|
            #![trigger placed_indices(files@, 0).to_multiset().count(x)]
            tree_all_indices(root).to_multiset().add(
            placed_indices(files@, 0).to_multiset(),
        ).count(x) == placed_indices(files@, 0).to_multiset().count(x) by {
            assert(!tree_all_indices(root).contains(x));
        }
        assert(tree_all_indices(root).to_multiset().add(placed_indices(files@, 0).to_multiset())
            =~= placed_indices(files@, 0).to_multiset());
    }
    let mut i: usize = 0;
    while i < files.len()
        invariant
            i <= files@.len(),
            n == files@.len() as nat,
            tree_wf(root, n),
            forall|x: int|
                0 <= x < i && path_parts(files@[x].rel_path@).len() > 0 ==> tree_has_at(
                    root,
                    path_parts(files@[x].rel_path@),
                    x,
                ),
            tree_all_indices(root).to_multiset().add(placed_indices(files@, i as int).to_multiset())
                == placed_indices(files@, 0).to_multiset(),
            folders_inhabited(root),
        decreases files.len() - i,
    {
        let ghost pre_ms = tree_all_indices(root).to_multiset();
        let parts = path_parts_exec(files[i].rel_path.as_str());
        proof {
            let head: Seq<int> = if path_parts(files@[i as int].rel_path@).len() > 0 {
                seq![i as int]
            } else {
                Seq::empty()
            };
            vstd::seq_lib::lemma_multiset_commutative(head, placed_indices(files@, i as int + 1));
            assert(placed_indices(files@, i as int) =~= head + placed_indices(
                files@,
                i as int + 1,
            ));
        }
        if parts.len() > 0 {
            proof {
                assert(parts.deep_view().skip(0) =~~= parts.deep_view());
            }
            root = insert_path(root, &parts, 0, i, Ghost(n));
            proof {
                assert(seq![i as int] =~= Seq::<int>::empty().push(i as int));
                assert(seq![i as int].to_multiset() =~= Multiset::<int>::empty().insert(i as int));
                assert forall|x: int|
                    #![trigger placed_indices(files@, 0).to_multiset().count(x)]
                    tree_all_indices(root).to_multiset().add(
                    placed_indices(files@, i as int + 1).to_multiset(),
                ).count(x) == placed_indices(files@, 0).to_multiset().count(x) by {
                    assert(tree_all_indices(root).to_multiset().count(x) == pre_ms.insert(
                        i as int,
                    ).count(x));
                    assert(pre_ms.add(placed_indices(files@, i as int).to_multiset()).count(x)
                        == placed_indices(files@, 0).to_multiset().count(x));
                }
                assert(tree_all_indices(root).to_multiset().add(
                    placed_indices(files@, i as int + 1).to_multiset(),
                ) =~= placed_indices(files@, 0).to_multiset());
            }
        } else {
            proof {
                assert(placed_indices(files@, i as int).to_multiset() =~= placed_indices(
                    files@,
                    i as int + 1,
                ).to_multiset());
            }
        }
        i = i + 1;
    }
    proof {
        assert(placed_indices(files@, files@.len() as int) =~= Seq::<int>::empty());
        assert forall|x: int|
            #![trigger tree_all_indices(root).to_multiset().count(x)]
            tree_all_indices(root).to_multiset().count(x) == placed_indices(
            files@,
            0,
        ).to_multiset().count(x) by {
            assert(!placed_indices(files@, files@.len() as int).contains(x));
            assert(tree_all_indices(root).to_multiset().add(
                placed_indices(files@, files@.len() as int).to_multiset(),
            ).count(x) == placed_indices(files@, 0).to_multiset().count(x));
        }
        assert forall|i2: int| 0 <= i2 < files@.len() implies tree_all_indices(
            root,
        ).to_multiset().count(i2) == (if path_parts(files@[i2].rel_path@).len() > 0 {
            1int
        } else {
            0int
        }) by {
            lemma_placed_count(files@, 0, i2);
        }
    }
    root
}


// ---------- aggregation ----------

/// The token sum of the files directly in a node's list.
pub open spec fn files_token_sum(fs: Seq<usize>, files: Seq<FileItem>) -> int
    decreases fs.len(),
{
    if fs.len() == 0 {
        0
    } else {
        (if (fs[0] as int) < files.len() {
            files[fs[0] as int].token_count as int
        } else {
            0
        }) + files_token_sum(fs.drop_first(), files)
    }
}

/// The token sum of a node and everything beneath it.
pub open spec fn spec_subtree_tokens(t: FileTree, files: Seq<FileItem>) -> int
    decreases t, t.folders@.len() + 1nat,
{
    files_token_sum(t.files@, files) + folders_token_sum(t, 0, files)
}

pub open spec fn folders_token_sum(t: FileTree, i: int, files: Seq<FileItem>) -> int
    decreases t, t.folders@.len() - i,
{
    if i < 0 || i >= t.folders@.len() {
        0
    } else {
        spec_subtree_tokens(t.folders@[i].tree, files) + folders_token_sum(t, i + 1, files)
    }
}

proof fn lemma_files_token_sum_nonneg(fs: Seq<usize>, files: Seq<FileItem>)
    ensures
        files_token_sum(fs, files) >= 0,
    decreases fs.len(),
{
    if fs.len() > 0 {
        lemma_files_token_sum_nonneg(fs.drop_first(), files);
    }
}

proof fn lemma_files_token_sum_step(fs: Seq<usize>, files: Seq<FileItem>, k: int)
    requires
        0 <= k < fs.len(),
    ensures
        files_token_sum(fs.skip(k), files) == (if (fs[k] as int) < files.len() {
            files[fs[k] as int].token_count as int
        } else {
            0
        }) + files_token_sum(fs.skip(k + 1), files),
{
    assert(fs.skip(k)[0] == fs[k]);
    assert(fs.skip(k).drop_first() =~= fs.skip(k + 1));
}

proof fn lemma_subtree_tokens_nonneg(t: FileTree, files: Seq<FileItem>)
    ensures
        spec_subtree_tokens(t, files) >= 0,
    decreases t, t.folders@.len() + 1nat,
{
    lemma_files_token_sum_nonneg(t.files@, files);
    lemma_folders_token_sum_nonneg(t, 0, files);
}

proof fn lemma_folders_token_sum_nonneg(t: FileTree, i: int, files: Seq<FileItem>)
    ensures
        folders_token_sum(t, i, files) >= 0,
    decreases t, t.folders@.len() - i,
{
    if 0 <= i < t.folders@.len() {
        lemma_subtree_tokens_nonneg(t.folders@[i].tree, files);
        lemma_folders_token_sum_nonneg(t, i + 1, files);
    }
}

/// Sums the token estimates of every entry under the node.
pub fn subtree_tokens(tree: &FileTree, files: &Vec<FileItem>) -> (r: usize)
    requires
        tree_wf(*tree, files@.len() as nat),
        spec_subtree_tokens(*tree, files@) <= usize::MAX,
    ensures
        r as int == spec_subtree_tokens(*tree, files@),
    decreases *tree,
{
    let ghost total = spec_subtree_tokens(*tree, files@);
    let mut sum: usize = 0;
    let mut k: usize = 0;
    proof {
        assert(tree.files@.skip(0) =~= tree.files@);
    }
    while k < tree.files.len()
        invariant
            k <= tree.files@.len(),
            tree_wf(*tree, files@.len() as nat),
            spec_subtree_tokens(*tree, files@) <= usize::MAX,
            sum + files_token_sum(tree.files@.skip(k as int), files@) + folders_token_sum(
                *tree,
                0,
                files@,
            ) == spec_subtree_tokens(*tree, files@),
        decreases tree.files@.len() - k,
    {
        proof {
            lemma_files_token_sum_step(tree.files@, files@, k as int);
            lemma_files_token_sum_nonneg(tree.files@.skip(k as int + 1), files@);
            lemma_folders_token_sum_nonneg(*tree, 0, files@);
            lemma_subtree_tokens_nonneg(*tree, files@);
        }
        let idx = tree.files[k];
        sum = sum + files[idx].token_count;
        k = k + 1;
    }
    proof {
        assert(tree.files@.skip(tree.files@.len() as int) =~= Seq::<usize>::empty());
    }
    let mut f: usize = 0;
    while f < tree.folders.len()
        invariant
            f <= tree.folders@.len(),
            tree_wf(*tree, files@.len() as nat),
            spec_subtree_tokens(*tree, files@) <= usize::MAX,
            sum + folders_token_sum(*tree, f as int, files@) == spec_subtree_tokens(
                *tree,
                files@,
            ),
        decreases tree.folders@.len() - f,
    {
        proof {
            lemma_subtrees_wf_index(*tree, 0, files@.len() as nat, f as int);
            lemma_subtree_tokens_nonneg(tree.folders@[f as int].tree, files@);
            lemma_folders_token_sum_nonneg(*tree, f as int + 1, files@);
            lemma_subtree_tokens_nonneg(*tree, files@);
        }
        let sub = subtree_tokens(&tree.folders[f].tree, files);
        sum = sum + sub;
        f = f + 1;
    }
    sum
}

/// How many files a node's own list holds, and how many of them are
/// selected.
pub open spec fn files_counts(fs: Seq<usize>, files: Seq<FileItem>) -> (int, int)
    decreases fs.len(),
{
    if fs.len() == 0 {
        (0, 0)
    } else {
        let rest = files_counts(fs.drop_first(), files);
        let sel: int = if (fs[0] as int) < files.len() && files[fs[0] as int].selected {
            1int
        } else {
            0int
        };
        (1 + rest.0, sel + rest.1)
    }
}

/// How many files a node and its descendants hold, and how many of them
/// are selected: what a folder checkbox is rendered from.
pub open spec fn spec_selection_counts(t: FileTree, files: Seq<FileItem>) -> (int, int)
    decreases t, t.folders@.len() + 1nat,
{
    let own = files_counts(t.files@, files);
    let below = folders_counts(t, 0, files);
    (own.0 + below.0, own.1 + below.1)
}

pub open spec fn folders_counts(t: FileTree, i: int, files: Seq<FileItem>) -> (int, int)
    decreases t, t.folders@.len() - i,
{
    if i < 0 || i >= t.folders@.len() {
        (0, 0)
    } else {
        let sub = spec_selection_counts(t.folders@[i].tree, files);
        let rest = folders_counts(t, i + 1, files);
        (sub.0 + rest.0, sub.1 + rest.1)
    }
}

proof fn lemma_files_counts_bounds(fs: Seq<usize>, files: Seq<FileItem>)
    ensures
        0 <= files_counts(fs, files).1 <= files_counts(fs, files).0,
    decreases fs.len(),
{
    if fs.len() > 0 {
        lemma_files_counts_bounds(fs.drop_first(), files);
    }
}

/// The selected count never exceeds the total count.
pub proof fn lemma_selection_counts_bounds(t: FileTree, files: Seq<FileItem>)
    ensures
        0 <= spec_selection_counts(t, files).1 <= spec_selection_counts(t, files).0,
    decreases t, t.folders@.len() + 1nat,
{
    lemma_files_counts_bounds(t.files@, files);
    lemma_folders_counts_bounds(t, 0, files);
}

proof fn lemma_folders_counts_bounds(t: FileTree, i: int, files: Seq<FileItem>)
    ensures
        0 <= folders_counts(t, i, files).1 <= folders_counts(t, i, files).0,
    decreases t, t.folders@.len() - i,
{
    if 0 <= i < t.folders@.len() {
        lemma_selection_counts_bounds(t.folders@[i].tree, files);
        lemma_folders_counts_bounds(t, i + 1, files);
    }
}

proof fn lemma_files_counts_step(fs: Seq<usize>, files: Seq<FileItem>, k: int)
    requires
        0 <= k < fs.len(),
    ensures
        files_counts(fs.skip(k), files).0 == 1 + files_counts(fs.skip(k + 1), files).0,
        files_counts(fs.skip(k), files).1 == (if (fs[k] as int) < files.len()
            && files[fs[k] as int].selected {
            1int
        } else {
            0int
        }) + files_counts(fs.skip(k + 1), files).1,
{
    assert(fs.skip(k)[0] == fs[k]);
    assert(fs.skip(k).drop_first() =~= fs.skip(k + 1));
}

/// Counts the subtree's files and its selected files.
pub fn get_folder_selection_counts(tree: &FileTree, files: &Vec<FileItem>) -> (r: (usize, usize))
    requires
        tree_wf(*tree, files@.len() as nat),
        spec_selection_counts(*tree, files@).0 <= usize::MAX,
    ensures
        r.0 as int == spec_selection_counts(*tree, files@).0,
        r.1 as int == spec_selection_counts(*tree, files@).1,
        r.1 <= r.0,
    decreases *tree,
{
    let ghost gtotal = spec_selection_counts(*tree, files@);
    proof {
        lemma_selection_counts_bounds(*tree, files@);
    }
    let mut total: usize = 0;
    let mut sel: usize = 0;
    let mut k: usize = 0;
    proof {
        assert(tree.files@.skip(0) =~= tree.files@);
    }
    while k < tree.files.len()
        invariant
            k <= tree.files@.len(),
            tree_wf(*tree, files@.len() as nat),
            spec_selection_counts(*tree, files@).0 <= usize::MAX,
            sel <= total,
            total + files_counts(tree.files@.skip(k as int), files@).0 + folders_counts(
                *tree,
                0,
                files@,
            ).0 == spec_selection_counts(*tree, files@).0,
            sel + files_counts(tree.files@.skip(k as int), files@).1 + folders_counts(
                *tree,
                0,
                files@,
            ).1 == spec_selection_counts(*tree, files@).1,
        decreases tree.files@.len() - k,
    {
        proof {
            lemma_files_counts_step(tree.files@, files@, k as int);
            lemma_files_counts_bounds(tree.files@.skip(k as int + 1), files@);
            lemma_folders_counts_bounds(*tree, 0, files@);
            lemma_selection_counts_bounds(*tree, files@);
        }
        let idx = tree.files[k];
        total = total + 1;
        if files[idx].selected {
            sel = sel + 1;
        }
        k = k + 1;
    }
    proof {
        assert(tree.files@.skip(tree.files@.len() as int) =~= Seq::<usize>::empty());
    }
    let mut f: usize = 0;
    while f < tree.folders.len()
        invariant
            f <= tree.folders@.len(),
            tree_wf(*tree, files@.len() as nat),
            spec_selection_counts(*tree, files@).0 <= usize::MAX,
            sel <= total,
            total + folders_counts(*tree, f as int, files@).0 == spec_selection_counts(
                *tree,
                files@,
            ).0,
            sel + folders_counts(*tree, f as int, files@).1 == spec_selection_counts(
                *tree,
                files@,
            ).1,
        decreases tree.folders@.len() - f,
    {
        proof {
            lemma_subtrees_wf_index(*tree, 0, files@.len() as nat, f as int);
            lemma_selection_counts_bounds(tree.folders@[f as int].tree, files@);
            lemma_folders_counts_bounds(*tree, f as int + 1, files@);
            lemma_selection_counts_bounds(*tree, files@);
        }
        let sub = get_folder_selection_counts(&tree.folders[f].tree, files);
        total = total + sub.0;
        sel = sel + sub.1;
        f = f + 1;
    }
    (total, sel)
}

// ---------- bulk selection ----------

/// The catalog indices a subtree reaches.
pub open spec fn tree_index_set(t: FileTree) -> Set<int>
    decreases t, t.folders@.len() + 1nat,
{
    files_index_set(t.files@).union(subtrees_index_set(t, 0))
}

pub open spec fn files_index_set(fs: Seq<usize>) -> Set<int> {
    Set::new(|x: int| exists|k: int| 0 <= k < fs.len() && fs[k] as int == x)
}

pub open spec fn subtrees_index_set(t: FileTree, i: int) -> Set<int>
    decreases t, t.folders@.len() - i,
{
    if i < 0 || i >= t.folders@.len() {
        Set::empty()
    } else {
        tree_index_set(t.folders@[i].tree).union(subtrees_index_set(t, i + 1))
    }
}

/// The entry is the same but for its selection flag, which is `v`.
pub open spec fn same_but_selected(a: FileItem, b: FileItem, v: bool) -> bool {
    &&& b.path == a.path
    &&& b.rel_path == a.rel_path
    &&& b.content == a.content
    &&& b.token_count == a.token_count
    &&& b.selected == v
}

/// Forces the selection flag of every entry under the node to `value`,
/// leaving every other entry and every other field untouched: the one
/// tree-driven mutation of the flat catalog.
pub fn set_folder_selection(tree: &FileTree, files: &mut Vec<FileItem>, value: bool)
    requires
        tree_wf(*tree, old(files)@.len() as nat),
    ensures
        final(files)@.len() == old(files)@.len(),
        forall|i: int|
            0 <= i < final(files)@.len() ==> if tree_index_set(*tree).contains(i) {
                same_but_selected(old(files)@[i], #[trigger] final(files)@[i], value)
            } else {
                final(files)@[i] == old(files)@[i]
            },
    decreases *tree,
{
    let ghost n = old(files)@.len() as nat;
    let mut k: usize = 0;
    while k < tree.files.len()
        invariant
            k <= tree.files@.len(),
            tree_wf(*tree, n),
            n == old(files)@.len() as nat,
            files@.len() == old(files)@.len(),
            forall|i: int|
                0 <= i < files@.len() ==> if files_index_set(tree.files@.take(k as int)).contains(
                    i,
                ) {
                    same_but_selected(old(files)@[i], #[trigger] files@[i], value)
                } else {
                    files@[i] == old(files)@[i]
                },
        decreases tree.files@.len() - k,
    {
        let idx = tree.files[k];
        let ghost pre = files@;
        let e = &mut files[idx];
        e.selected = value;
        proof {
            assert(files@ =~= pre.update(idx as int, files@[idx as int]));
            assert(files@[idx as int].path == pre[idx as int].path);
            assert(files@[idx as int].rel_path == pre[idx as int].rel_path);
            assert(files@[idx as int].content == pre[idx as int].content);
            assert(files@[idx as int].token_count == pre[idx as int].token_count);
            assert(files@[idx as int].selected == value);
            assert forall|i: int|
                0 <= i < files@.len() implies (if files_index_set(
                tree.files@.take(k as int + 1),
            ).contains(i) {
                same_but_selected(old(files)@[i], #[trigger] files@[i], value)
            } else {
                files@[i] == old(files)@[i]
            }) by {
                let pfx = tree.files@.take(k as int);
                let pfx1 = tree.files@.take(k as int + 1);
                assert(pfx1[k as int] == tree.files@[k as int]);
                assert(forall|w: int| 0 <= w < k ==> pfx1[w] == tree.files@[w]);
                assert(forall|w: int| 0 <= w < k ==> pfx[w] == tree.files@[w]);
                if i == idx as int {
                    assert(files_index_set(pfx1).contains(i));
                    if files_index_set(pfx).contains(i) {
                        assert(same_but_selected(old(files)@[i], pre[i], value));
                    } else {
                        assert(pre[i] == old(files)@[i]);
                    }
                } else {
                    assert(files@[i] == pre[i]);
                    if files_index_set(pfx1).contains(i) {
                        let w = choose|w: int| 0 <= w < pfx1.len() && pfx1[w] as int == i;
                        assert(w != k);
                        assert(pfx[w] as int == i);
                        assert(files_index_set(pfx).contains(i));
                    } else {
                        if files_index_set(pfx).contains(i) {
                            let w = choose|w: int| 0 <= w < pfx.len() && pfx[w] as int == i;
                            assert(pfx1[w] as int == i);
                            assert(files_index_set(pfx1).contains(i));
                        }
                    }
                }
            }
        }
        k = k + 1;
    }
    proof {
        assert(tree.files@.take(tree.files@.len() as int) =~= tree.files@);
    }
    let ghost after_files = files@;
    let mut f: usize = 0;
    while f < tree.folders.len()
        invariant
            f <= tree.folders@.len(),
            tree_wf(*tree, n),
            n == old(files)@.len() as nat,
            files@.len() == old(files)@.len(),
            forall|i: int|
                0 <= i < files@.len() ==> if files_index_set(tree.files@).contains(i)
                    || sets_up_to(*tree, f as int).contains(i) {
                    same_but_selected(old(files)@[i], #[trigger] files@[i], value)
                } else {
                    files@[i] == old(files)@[i]
                },
        decreases tree.folders@.len() - f,
    {
        proof {
            lemma_subtrees_wf_index(*tree, 0, n, f as int);
        }
        let ghost pre = files@;
        set_folder_selection(&tree.folders[f].tree, files, value);
        proof {
            assert forall|i: int|
                0 <= i < files@.len() implies (if files_index_set(tree.files@).contains(i)
                || sets_up_to(*tree, f as int + 1).contains(i) {
                same_but_selected(old(files)@[i], #[trigger] files@[i], value)
            } else {
                files@[i] == old(files)@[i]
            }) by {
                lemma_sets_up_to_step(*tree, f as int);
                if tree_index_set(tree.folders@[f as int].tree).contains(i) {
                } else {
                    assert(files@[i] == pre[i]);
                }
            }
        }
        f = f + 1;
    }
    proof {
        lemma_sets_up_to_full(*tree, 0);
        assert forall|i: int|
            0 <= i < files@.len() implies (if tree_index_set(*tree).contains(i) {
            same_but_selected(old(files)@[i], #[trigger] files@[i], value)
        } else {
            files@[i] == old(files)@[i]
        }) by {
            assert(tree_index_set(*tree) =~= files_index_set(tree.files@).union(
                sets_up_to(*tree, tree.folders@.len() as int),
            ));
        }
    }
}

/// The union of the first `f` subtrees' index sets.
pub open spec fn sets_up_to(t: FileTree, f: int) -> Set<int>
    decreases t, (if f >= 0 { f + 1 } else { 0 }),
{
    if f <= 0 {
        Set::empty()
    } else {
        sets_up_to(t, f - 1).union(
            if f - 1 < t.folders@.len() {
                tree_index_set(t.folders@[f - 1].tree)
            } else {
                Set::empty()
            },
        )
    }
}

proof fn lemma_sets_up_to_step(t: FileTree, f: int)
    requires
        0 <= f,
    ensures
        sets_up_to(t, f + 1) == sets_up_to(t, f).union(
            if f < t.folders@.len() {
                tree_index_set(t.folders@[f].tree)
            } else {
                Set::empty()
            },
        ),
{
}

proof fn lemma_sets_up_to_full(t: FileTree, i: int)
    requires
        0 <= i <= t.folders@.len(),
    ensures
        subtrees_index_set(t, i).union(sets_up_to(t, i)) =~= sets_up_to(
            t,
            t.folders@.len() as int,
        ),
    decreases t.folders@.len() - i,
{
    if i < t.folders@.len() {
        lemma_sets_up_to_full(t, i + 1);
        lemma_sets_up_to_step(t, i);
        assert(subtrees_index_set(t, i).union(sets_up_to(t, i)) =~= subtrees_index_set(
            t,
            i + 1,
        ).union(sets_up_to(t, i + 1)));
    }
}


// ---------- sorting ----------

/// The final component of a relative path: what the entry is listed as.
pub open spec fn basename(p: Seq<char>) -> Seq<char> {
    split_seq(p, '/').last()
}

proof fn lemma_split_rec_len(s: Seq<char>, sep: char, cur: Seq<char>, acc: Seq<Seq<char>>)
    ensures
        crate::strutil::split_rec(s, sep, cur, acc).len() >= acc.len() + 1,
    decreases s.len(),
{
    if s.len() > 0 {
        if s[0] == sep {
            lemma_split_rec_len(s.drop_first(), sep, Seq::empty(), acc.push(cur));
        } else {
            lemma_split_rec_len(s.drop_first(), sep, cur.push(s[0]), acc);
        }
    }
}

/// A split always yields at least one part.
pub proof fn lemma_split_seq_nonempty(s: Seq<char>, sep: char)
    ensures
        split_seq(s, sep).len() >= 1,
{
    lemma_split_rec_len(s, sep, Seq::empty(), Seq::empty());
}

/// The final path component.
pub fn basename_exec(rel: &str) -> (r: Vec<char>)
    ensures
        r@ == basename(rel@),
{
    let chars = str_to_chars(rel);
    let parts = split_chars(&chars, '/');
    proof {
        lemma_split_seq_nonempty(rel@, '/');
        assert(parts.deep_view().len() == parts@.len());
        assert(parts.deep_view()[parts@.len() - 1] == parts@[parts@.len() - 1]@);
    }
    let last = parts.len() - 1;
    let r = parts[last].clone();
    proof {
        assert(r@ =~= basename(rel@));
    }
    r
}

/// The (basename, index) pairs of a node's file list.
pub open spec fn file_keys(fs: Seq<usize>, files: Seq<FileItem>) -> Seq<(Seq<char>, int)> {
    fs.map_values(|u: usize| (basename(files[u as int].rel_path@), u as int))
}

/// `s` is `t` with every file list put into `seq_le` order of basenames,
/// folders unchanged in place.
pub open spec fn tree_sorted_as(s: FileTree, t: FileTree, files: Seq<FileItem>) -> bool
    decreases t, t.folders@.len() + 1nat,
{
    &&& file_keys(s.files@, files) == sort_pairs(file_keys(t.files@, files))
    &&& s.folders@.len() == t.folders@.len()
    &&& (forall|i: int|
        0 <= i < t.folders@.len() ==> (#[trigger] s.folders@[i]).name@ == t.folders@[i].name@)
    &&& folders_sorted_as(s, t, 0, files)
}

pub open spec fn folders_sorted_as(s: FileTree, t: FileTree, i: int, files: Seq<FileItem>) -> bool
    decreases t, t.folders@.len() - i,
{
    if i < 0 || i >= t.folders@.len() {
        true
    } else {
        (i < s.folders@.len() && tree_sorted_as(s.folders@[i].tree, t.folders@[i].tree, files))
            && folders_sorted_as(s, t, i + 1, files)
    }
}

proof fn lemma_folders_sorted_build(s: FileTree, t: FileTree, i: int, files: Seq<FileItem>)
    requires
        0 <= i,
        s.folders@.len() == t.folders@.len(),
        forall|m: int|
            i <= m < t.folders@.len() ==> tree_sorted_as(
                (#[trigger] s.folders@[m]).tree,
                t.folders@[m].tree,
                files,
            ),
    ensures
        folders_sorted_as(s, t, i, files),
    decreases t.folders@.len() - i,
{
    if i < t.folders@.len() {
        lemma_folders_sorted_build(s, t, i + 1, files);
    }
}

/// Sorts one node's file list by basename, returning the new list.
fn sort_files_list(fs: &Vec<usize>, files: &Vec<FileItem>) -> (r: Vec<usize>)
    requires
        forall|i: int| 0 <= i < fs@.len() ==> (fs@[i] as int) < files@.len(),
    ensures
        file_keys(r@, files@) == sort_pairs(file_keys(fs@, files@)),
        forall|i: int| 0 <= i < r@.len() ==> (r@[i] as int) < files@.len(),
        r@.len() == fs@.len(),
{
    let mut keyed: Vec<Keyed> = Vec::new();
    let mut k: usize = 0;
    while k < fs.len()
        invariant
            k <= fs@.len(),
            forall|i: int| 0 <= i < fs@.len() ==> (fs@[i] as int) < files@.len(),
            keyed_views(keyed@) =~= file_keys(fs@.take(k as int), files@),
        decreases fs.len() - k,
    {
        let idx = fs[k];
        let ghost prev = keyed_views(keyed@);
        let key = basename_exec(files[idx].rel_path.as_str());
        let entry = Keyed { key, idx };
        let ghost ge = entry;
        keyed.push(entry);
        proof {
            assert(keyed_views(keyed@) =~= prev.push(keyed_view(ge)));
            assert(keyed_view(ge) == (basename(files@[idx as int].rel_path@), idx as int));
            assert(fs@.take(k as int + 1) =~= fs@.take(k as int).push(fs@[k as int]));
            assert(keyed_views(keyed@) =~= file_keys(fs@.take(k as int + 1), files@));
        }
        k = k + 1;
    }
    proof {
        assert(fs@.take(fs@.len() as int) =~= fs@);
    }
    let ghost orig_views = keyed_views(keyed@);
    let sorted = sort_keyed(keyed);
    proof {
        crate::sort::lemma_sort_pairs_props(orig_views);
    }
    let mut r: Vec<usize> = Vec::new();
    let mut j: usize = 0;
    while j < sorted.len()
        invariant
            j <= sorted@.len(),
            keyed_views(sorted@) == sort_pairs(orig_views),
            orig_views == file_keys(fs@, files@),
            sort_pairs(orig_views).to_multiset() == orig_views.to_multiset(),
            forall|i: int| 0 <= i < fs@.len() ==> (fs@[i] as int) < files@.len(),
            r@.len() == j,
            forall|i: int|
                0 <= i < j ==> (r@[i] as int) == keyed_views(sorted@)[i].1 && (r@[i] as int)
                    < files@.len(),
        decreases sorted.len() - j,
    {
        proof {
            let vs = keyed_views(sorted@);
            assert(vs[j as int] == crate::sort::keyed_view(sorted@[j as int]));
            assert(vs.contains(vs[j as int]));
            assert(vs.to_multiset().count(vs[j as int]) > 0);
            assert(orig_views.contains(vs[j as int]));
            let w = choose|w: int| 0 <= w < orig_views.len() && orig_views[w] == vs[j as int];
            assert(orig_views[w].1 == fs@[w] as int);
            assert((vs[j as int].1) < files@.len());
        }
        let idx = sorted[j].idx;
        r.push(idx);
        j = j + 1;
    }
    proof {
        let vs = keyed_views(sorted@);
        assert forall|i: int| 0 <= i < r@.len() implies file_keys(r@, files@)[i] == vs[i] by {
            assert(vs.contains(vs[i]));
            assert(vs.to_multiset().count(vs[i]) > 0);
            assert(orig_views.contains(vs[i]));
            let w = choose|w: int| 0 <= w < orig_views.len() && orig_views[w] == vs[i];
            assert(orig_views[w] == (basename(files@[fs@[w] as int].rel_path@), fs@[w] as int));
            assert(vs[i].0 == basename(files@[vs[i].1].rel_path@));
            assert(r@[i] as int == vs[i].1);
        }
        assert(file_keys(r@, files@) =~= vs);
        assert(sort_pairs(orig_views).len() == orig_views.len());
    }
    r
}

#[verifier::loop_isolation(false)]
fn sort_tree_owned(t: FileTree, files: &Vec<FileItem>) -> (r: FileTree)
    requires
        tree_wf(t, files@.len() as nat),
    ensures
        tree_wf(r, files@.len() as nat),
        tree_sorted_as(r, t, files@),
    decreases t,
{
    let ghost t0 = t;
    let ghost n = files@.len() as nat;
    let mut cur = t;
    let nf = sort_files_list(&cur.files, files);
    cur.files = nf;
    let mut f: usize = 0;
    while f < cur.folders.len()
        invariant
            f <= cur.folders@.len(),
            tree_wf(t0, n),
            n == files@.len() as nat,
            file_keys(cur.files@, files@) == sort_pairs(file_keys(t0.files@, files@)),
            forall|i: int| 0 <= i < cur.files@.len() ==> (cur.files@[i] as int) < files@.len(),
            cur.folders@.len() == t0.folders@.len(),
            forall|m: int| f <= m < cur.folders@.len() ==> cur.folders@[m] == t0.folders@[m],
            forall|m: int|
                0 <= m < f ==> (#[trigger] cur.folders@[m]).name@ == t0.folders@[m].name@,
            forall|m: int|
                0 <= m < f ==> tree_wf((#[trigger] cur.folders@[m]).tree, n) && tree_sorted_as(
                    cur.folders@[m].tree,
                    t0.folders@[m].tree,
                    files@,
                ),
        decreases cur.folders@.len() - f,
    {
        proof {
            lemma_subtrees_wf_index(t0, 0, n, f as int);
        }
        let node = cur.folders.remove(f);
        let ghost ar = cur.folders@;
        proof {
            assert(node == t0.folders@[f as int]);
            assert(decreases_to!(t0 => t0.folders));
            assert(decreases_to!(t0.folders => t0.folders@));
            assert(decreases_to!(t0.folders@ => t0.folders@[f as int]));
            assert(decreases_to!(t0.folders@[f as int] => t0.folders@[f as int].tree));
            assert(decreases_to!(t0 => node.tree));
        }
        let sub = sort_tree_owned(node.tree, files);
        let newnode = FolderNode { name: node.name, tree: sub };
        let ghost gnew = newnode;
        cur.folders.insert(f, newnode);
        proof {
            assert(cur.folders@ =~= ar.insert(f as int, gnew));
            ar.insert_ensures(f as int, gnew);
            assert(cur.folders@[f as int] == gnew);
            assert forall|m: int|
                0 <= m < cur.folders@.len() && m != f implies cur.folders@[m] == ar[if m < f {
                m
            } else {
                m - 1
            }] by {}
        }
        f = f + 1;
    }
    proof {
        assert forall|a: int, b: int| 0 <= a < b < cur.folders@.len() implies seq_lt(
            cur.folders@[a].name@,
            cur.folders@[b].name@,
        ) by {
            assert(cur.folders@[a].name@ == t0.folders@[a].name@);
            assert(cur.folders@[b].name@ == t0.folders@[b].name@);
        }
        assert forall|m: int| 0 <= m < cur.folders@.len() implies tree_wf(
            #[trigger] cur.folders@[m].tree,
            n,
        ) by {}
        lemma_subtrees_wf_build(cur, 0, n);
        assert forall|m: int|
            0 <= m < cur.folders@.len() implies tree_sorted_as(
            (#[trigger] cur.folders@[m]).tree,
            t0.folders@[m].tree,
            files@,
        ) by {}
        lemma_folders_sorted_build(cur, t0, 0, files@);
    }
    cur
}

proof fn lemma_pairs_project_snd(p1: Seq<(Seq<char>, int)>, p2: Seq<(Seq<char>, int)>)
    requires
        p1.to_multiset() == p2.to_multiset(),
    ensures
        p1.map_values(|p: (Seq<char>, int)| p.1).to_multiset() == p2.map_values(
            |p: (Seq<char>, int)| p.1,
        ).to_multiset(),
    decreases p1.len(),
{
    let f = |p: (Seq<char>, int)| p.1;
    if p1.len() == 0 {
        assert(p2.to_multiset().len() == 0);
        assert(p2.len() == 0);
        assert(p1.map_values(f) =~= p2.map_values(f));
    } else {
        let x = p1[0];
        assert(p1.contains(x));
        assert(p1.to_multiset().count(x) > 0);
        assert(p2.contains(x));
        let j = choose|j: int| 0 <= j < p2.len() && p2[j] == x;
        let p1r = p1.drop_first();
        let p2r = p2.remove(j);
        assert(p1.remove(0) =~= p1r);
        assert(p1r.to_multiset() == p1.to_multiset().remove(x));
        assert(p2r.to_multiset() == p2.to_multiset().remove(x));
        lemma_pairs_project_snd(p1r, p2r);
        // the projections differ from the originals by the one element
        assert(p1.map_values(f).remove(0) =~= p1r.map_values(f));
        assert(p1.map_values(f)[0] == x.1);
        assert(p1.map_values(f).remove(0).to_multiset() == p1.map_values(f).to_multiset().remove(
            x.1,
        ));
        p2.remove_ensures(j);
        assert(p2.map_values(f).remove(j) =~= p2r.map_values(f));
        assert(p2.map_values(f)[j] == x.1);
        assert(p2.map_values(f).remove(j).to_multiset() == p2.map_values(f).to_multiset().remove(
            x.1,
        ));
        assert(p1.map_values(f).contains(x.1));
        assert(p1.map_values(f).to_multiset().count(x.1) > 0);
        assert(p2.map_values(f).contains(x.1));
        assert(p2.map_values(f).to_multiset().count(x.1) > 0);
        assert forall|y: int|
            #![trigger p1.map_values(f).to_multiset().count(y)]
            p1.map_values(f).to_multiset().count(y) == p2.map_values(f).to_multiset().count(
            y,
        ) by {
            assert(p1.map_values(f).to_multiset().remove(x.1).count(y) == p2.map_values(
                f,
            ).to_multiset().remove(x.1).count(y));
        }
        assert(p1.map_values(f).to_multiset() =~= p2.map_values(f).to_multiset());
    }
}

/// Alphabetizing preserves occupancy: the sorted tree holds exactly the
/// indices the unsorted one held.
pub proof fn lemma_sorted_as_indices(s: FileTree, t: FileTree, files: Seq<FileItem>)
    requires
        tree_sorted_as(s, t, files),
    ensures
        tree_all_indices(s).to_multiset() == tree_all_indices(t).to_multiset(),
    decreases t, t.folders@.len() + 1nat,
{
    let f = |p: (Seq<char>, int)| p.1;
    let g = |u: usize| u as int;
    crate::sort::lemma_sort_pairs_props(file_keys(t.files@, files));
    lemma_pairs_project_snd(file_keys(s.files@, files), file_keys(t.files@, files));
    assert(file_keys(s.files@, files).map_values(f) =~= s.files@.map_values(g));
    assert(file_keys(t.files@, files).map_values(f) =~= t.files@.map_values(g));
    lemma_sorted_as_folders(s, t, 0, files);
    vstd::seq_lib::lemma_multiset_commutative(s.files@.map_values(g), folders_all_indices(s, 0));
    vstd::seq_lib::lemma_multiset_commutative(t.files@.map_values(g), folders_all_indices(t, 0));
    assert(tree_all_indices(s).to_multiset() =~= tree_all_indices(t).to_multiset());
}

proof fn lemma_sorted_as_folders(s: FileTree, t: FileTree, i: int, files: Seq<FileItem>)
    requires
        folders_sorted_as(s, t, i, files),
        s.folders@.len() == t.folders@.len(),
        0 <= i,
    ensures
        folders_all_indices(s, i).to_multiset() == folders_all_indices(t, i).to_multiset(),
    decreases t, t.folders@.len() - i,
{
    if i < t.folders@.len() {
        lemma_sorted_as_indices(s.folders@[i].tree, t.folders@[i].tree, files);
        lemma_sorted_as_folders(s, t, i + 1, files);
        vstd::seq_lib::lemma_multiset_commutative(
            tree_all_indices(s.folders@[i].tree),
            folders_all_indices(s, i + 1),
        );
        vstd::seq_lib::lemma_multiset_commutative(
            tree_all_indices(t.folders@[i].tree),
            folders_all_indices(t, i + 1),
        );
        assert(folders_all_indices(s, i).to_multiset() =~= folders_all_indices(t, i).to_multiset());
    }
}

proof fn lemma_sorted_as_inhabited_from(s: FileTree, t: FileTree, i: int, files: Seq<FileItem>)
    requires
        folders_sorted_as(s, t, i, files),
        subtrees_inhabited(t, i),
        s.folders@.len() == t.folders@.len(),
        0 <= i,
    ensures
        subtrees_inhabited(s, i),
    decreases t, t.folders@.len() - i,
{
    if i < t.folders@.len() {
        lemma_sorted_as_indices(s.folders@[i].tree, t.folders@[i].tree, files);
        assert(tree_all_indices(s.folders@[i].tree).to_multiset().len() == tree_all_indices(
            t.folders@[i].tree,
        ).to_multiset().len());
        lemma_sorted_as_inhabited(s.folders@[i].tree, t.folders@[i].tree, files);
        lemma_sorted_as_inhabited_from(s, t, i + 1, files);
    }
}

/// Alphabetizing leaves no folder node empty that was not empty before:
/// inhabitedness carries over to the sorted tree.
pub proof fn lemma_sorted_as_inhabited(s: FileTree, t: FileTree, files: Seq<FileItem>)
    requires
        tree_sorted_as(s, t, files),
        folders_inhabited(t),
    ensures
        folders_inhabited(s),
    decreases t, t.folders@.len() + 1nat,
{
    lemma_sorted_as_inhabited_from(s, t, 0, files);
}

/// Recursively alphabetizes each node's file list by basename; folder
/// order is already alphabetical by construction.
pub fn sort_file_tree(tree: &mut FileTree, files: &Vec<FileItem>)
    requires
        tree_wf(*old(tree), files@.len() as nat),
    ensures
        tree_wf(*final(tree), files@.len() as nat),
        tree_sorted_as(*final(tree), *old(tree), files@),
{
    let mut tmp = FileTree { folders: Vec::new(), files: Vec::new() };
    core::mem::swap(tree, &mut tmp);
    let sorted = sort_tree_owned(tmp, files);
    *tree = sorted;
}


// ---------- rendering ----------

pub open spec fn connector(is_last: bool) -> Seq<char> {
    if is_last {
        "└─ "@
    } else {
        "├─ "@
    }
}

pub open spec fn child_prefix(prefix: Seq<char>, is_last: bool) -> Seq<char> {
    if is_last {
        prefix + "    "@
    } else {
        prefix + "│   "@
    }
}

/// One node rendered as indented lines: folders first, in their stored
/// (alphabetical) order, then files alphabetized by basename; each entry
/// carries the branch connector, the last one its closing connector.
pub open spec fn spec_render(t: FileTree, files: Seq<FileItem>, prefix: Seq<char>) -> Seq<char>
    decreases t, t.folders@.len() + 1nat,
{
    render_folders(t, 0, files, prefix) + render_files(
        sort_pairs(file_keys(t.files@, files)),
        0,
        prefix,
    )
}

pub open spec fn render_folders(t: FileTree, i: int, files: Seq<FileItem>, prefix: Seq<char>) -> Seq<
    char,
>
    decreases t, t.folders@.len() - i,
{
    if i < 0 || i >= t.folders@.len() {
        Seq::empty()
    } else {
        let is_last = i == t.folders@.len() - 1 && t.files@.len() == 0;
        prefix + connector(is_last) + t.folders@[i].name@ + "\n"@ + spec_render(
            t.folders@[i].tree,
            files,
            child_prefix(prefix, is_last),
        ) + render_folders(t, i + 1, files, prefix)
    }
}

pub open spec fn render_files(sorted: Seq<(Seq<char>, int)>, j: int, prefix: Seq<char>) -> Seq<
    char,
>
    decreases sorted.len() - j,
{
    if j < 0 || j >= sorted.len() {
        Seq::empty()
    } else {
        prefix + connector(j == sorted.len() - 1) + sorted[j].0 + "\n"@ + render_files(
            sorted,
            j + 1,
            prefix,
        )
    }
}

fn extend_chars(out: &mut Vec<char>, piece: &Vec<char>)
    ensures
        final(out)@ == old(out)@ + piece@,
{
    out.extend_from_slice(piece.as_slice());
    proof {
        assert(out@ =~= old(out)@ + piece@);
    }
}

/// Renders the subtree under `prefix` exactly as `spec_render` lays it
/// out; a pure projection, recomputed on demand.
#[verifier::loop_isolation(false)]
pub fn generate_tree_string(tree: &FileTree, files: &Vec<FileItem>, prefix: String) -> (r: String)
    requires
        tree_wf(*tree, files@.len() as nat),
    ensures
        r@ == spec_render(*tree, files@, prefix@),
    decreases *tree,
{
    let pv = str_to_chars(prefix.as_str());
    let out = render_node(tree, files, &pv);
    chars_to_string(&out)
}

#[verifier::loop_isolation(false)]
fn render_node(tree: &FileTree, files: &Vec<FileItem>, prefix: &Vec<char>) -> (r: Vec<char>)
    requires
        tree_wf(*tree, files@.len() as nat),
    ensures
        r@ == spec_render(*tree, files@, prefix@),
    decreases *tree,
{
    let mut out: Vec<char> = Vec::new();
    let nfolders = tree.folders.len();
    let nfiles = tree.files.len();
    let mut f: usize = 0;
    while f < nfolders
        invariant
            f <= nfolders,
            out@ + render_folders(*tree, f as int, files@, prefix@) == render_folders(
                *tree,
                0,
                files@,
                prefix@,
            ),
        decreases nfolders - f,
    {
        let is_last = f + 1 == nfolders && nfiles == 0;
        let ghost pre_out = out@;
        extend_chars(&mut out, prefix);
        let conn = if is_last {
            str_to_chars("└─ ")
        } else {
            str_to_chars("├─ ")
        };
        extend_chars(&mut out, &conn);
        let name = str_to_chars(tree.folders[f].name.as_str());
        extend_chars(&mut out, &name);
        out.push('\n');
        let cpx = if is_last {
            str_to_chars("    ")
        } else {
            str_to_chars("│   ")
        };
        let cp = crate::strutil::concat_chars(prefix, &cpx);
        proof {
            assert(cp@ == child_prefix(prefix@, is_last));
            lemma_subtrees_wf_index(*tree, 0, files@.len() as nat, f as int);
        }
        let sub = render_node(&tree.folders[f].tree, files, &cp);
        extend_chars(&mut out, &sub);
        proof {
            reveal_strlit("\n");
            assert("\n"@ =~= seq!['\n']);
            assert(out@ =~= pre_out + (prefix@ + connector(is_last) + tree.folders@[f as int].name@
                + "\n"@ + spec_render(
                tree.folders@[f as int].tree,
                files@,
                child_prefix(prefix@, is_last),
            )));
            assert(out@ + render_folders(*tree, f as int + 1, files@, prefix@) =~= pre_out
                + render_folders(*tree, f as int, files@, prefix@));
        }
        f = f + 1;
    }
    proof {
        assert(out@ =~= render_folders(*tree, 0, files@, prefix@));
    }
    let ghost folder_part = out@;
    let sorted_fs = sort_files_list(&tree.files, files);
    let ghost sv = sort_pairs(file_keys(tree.files@, files@));
    proof {
        crate::sort::lemma_sort_pairs_props(file_keys(tree.files@, files@));
        assert(sv.len() == tree.files@.len());
    }
    let mut j: usize = 0;
    while j < sorted_fs.len()
        invariant
            j <= sorted_fs@.len(),
            sorted_fs@.len() == sv.len(),
            file_keys(sorted_fs@, files@) == sv,
            forall|i: int| 0 <= i < sorted_fs@.len() ==> (sorted_fs@[i] as int) < files@.len(),
            out@ + render_files(sv, j as int, prefix@) == folder_part + render_files(
                sv,
                0,
                prefix@,
            ),
        decreases sorted_fs@.len() - j,
    {
        let ghost pre_out = out@;
        extend_chars(&mut out, prefix);
        let is_last = j + 1 == sorted_fs.len();
        let conn = if is_last {
            str_to_chars("└─ ")
        } else {
            str_to_chars("├─ ")
        };
        extend_chars(&mut out, &conn);
        let idx = sorted_fs[j];
        let name = basename_exec(files[idx].rel_path.as_str());
        extend_chars(&mut out, &name);
        out.push('\n');
        proof {
            reveal_strlit("\n");
            assert("\n"@ =~= seq!['\n']);
            assert(file_keys(sorted_fs@, files@)[j as int] == (basename(
                files@[sorted_fs@[j as int] as int].rel_path@,
            ), sorted_fs@[j as int] as int));
            assert(name@ == sv[j as int].0);
            assert(out@ =~= pre_out + (prefix@ + connector(is_last) + sv[j as int].0 + "\n"@));
            assert(out@ + render_files(sv, j as int + 1, prefix@) =~= pre_out + render_files(
                sv,
                j as int,
                prefix@,
            ));
        }
        j = j + 1;
    }
    proof {
        assert(out@ =~= folder_part + render_files(sv, 0, prefix@));
    }
    out
}

/// Builds the tree for the catalog, alphabetizes it, and renders it under
/// the root folder's name: there is a well-formed tree holding each
/// placeable entry exactly once whose alphabetized form is what was
/// rendered.
pub fn generate_file_tree_string(files: &Vec<FileItem>, root_name: &str) -> (r: String)
    ensures
        exists|t0: FileTree, t: FileTree|
            {
                &&& tree_wf(t0, files@.len() as nat)
                &&& (forall|i: int|
                    0 <= i < files@.len() && path_parts(files@[i].rel_path@).len() > 0
                        ==> tree_has_at(t0, path_parts(files@[i].rel_path@), i))
                &&& (forall|i: int|
                    0 <= i < files@.len() ==> tree_all_indices(t0).to_multiset().count(i) == (
                    if path_parts(files@[i].rel_path@).len() > 0 {
                        1int
                    } else {
                        0int
                    }))
                &&& folders_inhabited(t0)
                &&& tree_wf(t, files@.len() as nat)
                &&& tree_sorted_as(t, t0, files@)
                &&& (forall|i: int|
                    0 <= i < files@.len() ==> tree_all_indices(t).to_multiset().count(i) == (
                    if path_parts(files@[i].rel_path@).len() > 0 {
                        1int
                    } else {
                        0int
                    }))
                &&& folders_inhabited(t)
                &&& r@ == root_name@ + "/\n"@ + spec_render(t, files@, Seq::<char>::empty())
            },
{
    let mut tree = build_file_tree(files);
    let ghost built = tree;
    sort_file_tree(&mut tree, files);
    let rendered = generate_tree_string(&tree, files, String::new());
    let mut out = str_to_chars(root_name);
    let slash = str_to_chars("/\n");
    extend_chars(&mut out, &slash);
    let body = str_to_chars(rendered.as_str());
    extend_chars(&mut out, &body);
    let ghost witness = tree;
    let r = chars_to_string(&out);
    proof {
        lemma_sorted_as_indices(witness, built, files@);
        lemma_sorted_as_inhabited(witness, built, files@);
        assert(r@ =~= root_name@ + "/\n"@ + spec_render(witness, files@, Seq::<char>::empty()));
    }
    r
}

} // verus!
