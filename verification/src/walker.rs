//! The bounded directory walk, as a state machine: the caller reads one
//! directory's entries at a time and feeds them in, while every decision —
//! pruning by ignore rules, skipping symlinks, counting, and stopping at
//! the file cap — is made and verified here. An explicit work stack of
//! pending directories stands in for recursion.

use vstd::prelude::*;
use crate::ignore::IgnoreRules;
use crate::strutil::{str_to_chars, chars_to_string, concat_chars};

verus! {

/// What one directory entry is: a regular file, a regular directory, or a
/// symbolic link (never followed).
#[derive(Clone, Copy, Debug)]
pub enum EntryKind {
    File,
    Dir,
    Symlink,
}

/// One directory entry, by base name.
pub struct DirEntry {
    pub name: String,
    pub kind: EntryKind,
}

/// The walk's visible state.
pub struct WalkState {
    /// Root-relative paths of directories still to visit.
    pub pending: Vec<String>,
    /// Root-relative paths of the files kept so far.
    pub files: Vec<String>,
    /// Regular files visited (not counting pruned subtrees).
    pub scanned_files: usize,
    /// Files dropped by ignore rules.
    pub ignored_files: usize,
    /// Directories pruned by ignore rules, one per pruned subtree.
    pub ignored_dirs: usize,
    /// Symbolic links skipped, never followed.
    pub symlinks_skipped: usize,
    /// The file cap.
    pub limit: usize,
    /// Whether the cap stopped the walk early.
    pub truncated: bool,
}

/// The walk state as mathematical values.
pub ghost struct WalkModel {
    pub pending: Seq<Seq<char>>,
    pub files: Seq<Seq<char>>,
    pub scanned: int,
    pub ignored_files: int,
    pub ignored_dirs: int,
    pub symlinks: int,
    pub truncated: bool,
}

impl WalkState {
    pub open spec fn model(&self) -> WalkModel {
        WalkModel {
            pending: self.pending.deep_view(),
            files: self.files.deep_view(),
            scanned: self.scanned_files as int,
            ignored_files: self.ignored_files as int,
            ignored_dirs: self.ignored_dirs as int,
            symlinks: self.symlinks_skipped as int,
            truncated: self.truncated,
        }
    }

    /// The cap is respected: kept files never exceed it, stay strictly
    /// under it while the walk is live, and sit exactly at it once the
    /// walk was cut short.
    pub open spec fn wf(&self) -> bool {
        if self.truncated {
            self.files@.len() == self.limit
        } else {
            self.files@.len() < self.limit
        }
    }
}

/// The root-relative path of an entry named `name` inside directory `dir`.
pub open spec fn child_path(dir: Seq<char>, name: Seq<char>) -> Seq<char> {
    if dir.len() == 0 {
        name
    } else {
        dir + "/"@ + name
    }
}

/// One entry's effect on the walk.
pub open spec fn walk_step(
    m: WalkModel,
    limit: int,
    dir: Seq<char>,
    e: DirEntry,
    rules: &IgnoreRules,
) -> WalkModel {
    match e.kind {
        EntryKind::Symlink => WalkModel { symlinks: m.symlinks + 1, ..m },
        EntryKind::File => {
            let p = child_path(dir, e.name@);
            let m1 = WalkModel { scanned: m.scanned + 1, ..m };
            if rules.spec_matches_file(p) {
                WalkModel { ignored_files: m1.ignored_files + 1, ..m1 }
            } else {
                let m2 = WalkModel { files: m1.files.push(p), ..m1 };
                if m2.files.len() >= limit {
                    WalkModel { truncated: true, ..m2 }
                } else {
                    m2
                }
            }
        },
        EntryKind::Dir => {
            let p = child_path(dir, e.name@);
            if rules.spec_matches_dir(p) {
                WalkModel { ignored_dirs: m.ignored_dirs + 1, ..m }
            } else {
                WalkModel { pending: m.pending.push(p), ..m }
            }
        },
    }
}

/// The effect of one directory's entries, stopping the moment the cap is
/// hit, even mid-directory.
pub open spec fn walk_steps(
    m: WalkModel,
    limit: int,
    dir: Seq<char>,
    entries: Seq<DirEntry>,
    rules: &IgnoreRules,
) -> WalkModel
    decreases entries.len(),
{
    if entries.len() == 0 || m.truncated {
        m
    } else {
        walk_steps(walk_step(m, limit, dir, entries[0], rules), limit, dir, entries.drop_first(), rules)
    }
}

/// The walk's first state: the root directory pending, nothing counted.
pub fn walk_start(limit: usize) -> (st: WalkState)
    ensures
        st.wf(),
        st.limit == limit,
        st.model().pending =~~= seq![Seq::<char>::empty()],
        st.model().files =~~= Seq::<Seq<char>>::empty(),
        st.model().scanned == 0,
        st.model().ignored_files == 0,
        st.model().ignored_dirs == 0,
        st.model().symlinks == 0,
        st.model().truncated == (limit == 0),
{
    let mut pending: Vec<String> = Vec::new();
    pending.push(String::new());
    let st = WalkState {
        pending,
        files: Vec::new(),
        scanned_files: 0,
        ignored_files: 0,
        ignored_dirs: 0,
        symlinks_skipped: 0,
        limit,
        truncated: limit == 0,
    };
    proof {
        assert(st.model().pending =~~= seq![Seq::<char>::empty()]);
        assert(st.model().files =~~= Seq::<Seq<char>>::empty());
    }
    st
}

/// What `next_dir` leaves behind: pruned directories are popped and
/// counted until a directory to visit (returned) or nothing remains.
pub open spec fn drain_model(m: WalkModel, rules: &IgnoreRules) -> (WalkModel, Option<Seq<char>>)
    decreases m.pending.len(),
{
    if m.truncated || m.pending.len() == 0 {
        (m, None::<Seq<char>>)
    } else {
        let d = m.pending.last();
        let m1 = WalkModel { pending: m.pending.drop_last(), ..m };
        if rules.spec_matches_dir(d) {
            drain_model(WalkModel { ignored_dirs: m1.ignored_dirs + 1, ..m1 }, rules)
        } else {
            (m1, Some(d))
        }
    }
}

/// Pops pending directories, pruning and counting the ignored ones, and
/// returns the next directory to read, or nothing when the walk is over.
pub fn next_dir(st: &mut WalkState, rules: &IgnoreRules) -> (r: Option<String>)
    requires
        old(st).wf(),
        old(st).ignored_dirs + old(st).pending@.len() <= usize::MAX,
    ensures
        final(st).wf(),
        final(st).limit == old(st).limit,
        (final(st).model(), match r {
            Some(d) => Some(d@),
            None => None::<Seq<char>>,
        }) == drain_model(old(st).model(), rules),
{
    loop
        invariant
            st.wf(),
            st.limit == old(st).limit,
            st.ignored_dirs + st.pending@.len() <= usize::MAX,
            drain_model(st.model(), rules) == drain_model(old(st).model(), rules),
        decreases st.pending@.len(),
    {
        if st.truncated || st.pending.len() == 0 {
            return None;
        }
        let ghost m = st.model();
        let d = st.pending.pop().unwrap();
        proof {
            assert(m.pending.last() == d@);
            assert(st.model().pending =~~= m.pending.drop_last());
            assert(st.model() == WalkModel { pending: m.pending.drop_last(), ..m });
        }
        if rules.is_ignored_dir(d.as_str()) {
            st.ignored_dirs = st.ignored_dirs + 1;
        } else {
            return Some(d);
        }
    }
}

/// Feeds one directory's entries to the walk; `dir` is the root-relative
/// path `next_dir` returned.
pub fn process_dir(st: &mut WalkState, rules: &IgnoreRules, dir: &String, entries: &Vec<DirEntry>)
    requires
        old(st).wf(),
        old(st).scanned_files + entries@.len() <= usize::MAX,
        old(st).ignored_files + entries@.len() <= usize::MAX,
        old(st).ignored_dirs + entries@.len() <= usize::MAX,
        old(st).symlinks_skipped + entries@.len() <= usize::MAX,
        old(st).pending@.len() + entries@.len() <= usize::MAX,
    ensures
        final(st).wf(),
        final(st).limit == old(st).limit,
        final(st).model() == walk_steps(
            old(st).model(),
            old(st).limit as int,
            dir@,
            entries@,
            rules,
        ),
{
    let ghost limit = st.limit as int;
    let mut i: usize = 0;
    proof {
        assert(entries@.skip(0) =~= entries@);
    }
    while i < entries.len()
        invariant
            i <= entries@.len(),
            st.wf(),
            st.limit == old(st).limit,
            st.scanned_files + (entries@.len() - i) <= usize::MAX,
            st.ignored_files + (entries@.len() - i) <= usize::MAX,
            st.ignored_dirs + (entries@.len() - i) <= usize::MAX,
            st.symlinks_skipped + (entries@.len() - i) <= usize::MAX,
            st.pending@.len() + (entries@.len() - i) <= usize::MAX,
            limit == old(st).limit as int,
            walk_steps(st.model(), limit, dir@, entries@.skip(i as int), rules) == walk_steps(
                old(st).model(),
                limit,
                dir@,
                entries@,
                rules,
            ),
        decreases entries@.len() - i,
    {
        proof {
            assert(entries@.skip(i as int)[0] == entries@[i as int]);
            assert(entries@.skip(i as int).drop_first() =~= entries@.skip(i as int + 1));
        }
        if st.truncated {
            proof {
                assert(walk_steps(st.model(), limit, dir@, entries@.skip(i as int), rules)
                    == st.model());
            }
            i = entries.len();
            proof {
                assert(entries@.skip(entries@.len() as int) =~= Seq::<DirEntry>::empty());
            }
        } else {
            let ghost m = st.model();
            let e = &entries[i];
            let path = child_path_exec(dir, &e.name);
            match e.kind {
                EntryKind::Symlink => {
                    st.symlinks_skipped = st.symlinks_skipped + 1;
                    proof {
                        assert(st.model() == walk_step(m, limit, dir@, entries@[i as int], rules));
                    }
                },
                EntryKind::File => {
                    st.scanned_files = st.scanned_files + 1;
                    if rules.is_ignored_file(path.as_str()) {
                        st.ignored_files = st.ignored_files + 1;
                        proof {
                            assert(st.model() == walk_step(m, limit, dir@, entries@[i as int], rules));
                        }
                    } else {
                        let ghost fs = st.files.deep_view();
                        st.files.push(path);
                        proof {
                            assert(st.files.deep_view() =~~= fs.push(child_path(dir@, entries@[i as int].name@)));
                        }
                        if st.files.len() >= st.limit {
                            st.truncated = true;
                        }
                        proof {
                            assert(st.model() == walk_step(m, limit, dir@, entries@[i as int], rules));
                        }
                    }
                },
                EntryKind::Dir => {
                    if rules.is_ignored_dir(path.as_str()) {
                        st.ignored_dirs = st.ignored_dirs + 1;
                        proof {
                            assert(st.model() == walk_step(m, limit, dir@, entries@[i as int], rules));
                        }
                    } else {
                        let ghost ps = st.pending.deep_view();
                        st.pending.push(path);
                        proof {
                            assert(st.pending.deep_view() =~~= ps.push(child_path(dir@, entries@[i as int].name@)));
                            assert(st.model() == walk_step(m, limit, dir@, entries@[i as int], rules));
                        }
                    }
                },
            }
            i = i + 1;
        }
    }
    proof {
        assert(entries@.skip(entries@.len() as int) =~= Seq::<DirEntry>::empty());
    }
}

/// The root-relative path of `name` inside `dir`.
pub fn child_path_exec(dir: &String, name: &String) -> (r: String)
    ensures
        r@ == child_path(dir@, name@),
{
    if dir.as_str().is_empty() {
        let r = name.clone();
        r
    } else {
        let mut v = str_to_chars(dir.as_str());
        let sep = str_to_chars("/");
        let n = str_to_chars(name.as_str());
        let a = concat_chars(&v, &sep);
        let b = concat_chars(&a, &n);
        proof {
            assert(b@ =~= dir@ + "/"@ + name@);
        }
        chars_to_string(&b)
    }
}


/// The path names a regular subdirectory among the entries.
pub open spec fn is_dir_child(p: Seq<char>, dir: Seq<char>, entries: Seq<DirEntry>) -> bool {
    exists|k: int|
        0 <= k < entries.len() && (#[trigger] entries[k]).kind is Dir && p == child_path(
            dir,
            entries[k].name@,
        )
}

/// The path names a regular file among the entries.
pub open spec fn is_file_child(p: Seq<char>, dir: Seq<char>, entries: Seq<DirEntry>) -> bool {
    exists|k: int|
        0 <= k < entries.len() && (#[trigger] entries[k]).kind is File && p == child_path(
            dir,
            entries[k].name@,
        )
}

proof fn lemma_child_lift_dir(p: Seq<char>, dir: Seq<char>, entries: Seq<DirEntry>)
    requires
        entries.len() > 0,
        is_dir_child(p, dir, entries.drop_first()),
    ensures
        is_dir_child(p, dir, entries),
{
    let k = choose|k: int|
        0 <= k < entries.drop_first().len() && (#[trigger] entries.drop_first()[k]).kind is Dir
            && p == child_path(dir, entries.drop_first()[k].name@);
    assert(entries[k + 1] == entries.drop_first()[k]);
}

proof fn lemma_child_lift_file(p: Seq<char>, dir: Seq<char>, entries: Seq<DirEntry>)
    requires
        entries.len() > 0,
        is_file_child(p, dir, entries.drop_first()),
    ensures
        is_file_child(p, dir, entries),
{
    let k = choose|k: int|
        0 <= k < entries.drop_first().len() && (#[trigger] entries.drop_first()[k]).kind is File
            && p == child_path(dir, entries.drop_first()[k].name@);
    assert(entries[k + 1] == entries.drop_first()[k]);
}

/// Symbolic links are never followed: a walk queues only regular
/// subdirectories and keeps only regular files, so no link can draw the
/// walk into a cycle; a link only raises the skip counter.
pub proof fn lemma_symlinks_not_followed(
    m: WalkModel,
    limit: int,
    dir: Seq<char>,
    entries: Seq<DirEntry>,
    rules: &IgnoreRules,
)
    ensures
        walk_steps(m, limit, dir, entries, rules).pending.len() >= m.pending.len(),
        forall|j: int|
            0 <= j < m.pending.len() ==> walk_steps(m, limit, dir, entries, rules).pending[j]
                == m.pending[j],
        forall|j: int|
            m.pending.len() <= j < walk_steps(m, limit, dir, entries, rules).pending.len()
                ==> is_dir_child(
                #[trigger] walk_steps(m, limit, dir, entries, rules).pending[j],
                dir,
                entries,
            ),
        walk_steps(m, limit, dir, entries, rules).files.len() >= m.files.len(),
        forall|j: int|
            0 <= j < m.files.len() ==> walk_steps(m, limit, dir, entries, rules).files[j]
                == m.files[j],
        forall|j: int|
            m.files.len() <= j < walk_steps(m, limit, dir, entries, rules).files.len()
                ==> is_file_child(
                #[trigger] walk_steps(m, limit, dir, entries, rules).files[j],
                dir,
                entries,
            ),
        walk_steps(m, limit, dir, entries, rules).symlinks >= m.symlinks,
    decreases entries.len(),
{
    if entries.len() == 0 || m.truncated {
        assert(walk_steps(m, limit, dir, entries, rules) == m);
    } else {
        let e0 = entries[0];
        let m1 = walk_step(m, limit, dir, e0, rules);
        let m2 = walk_steps(m1, limit, dir, entries.drop_first(), rules);
        lemma_symlinks_not_followed(m1, limit, dir, entries.drop_first(), rules);
        assert(walk_steps(m, limit, dir, entries, rules) == m2);
        match e0.kind {
            EntryKind::Symlink => {
                assert(m1.pending == m.pending);
                assert(m1.files == m.files);
            },
            EntryKind::File => {
                assert(m1.pending == m.pending);
                if rules.spec_matches_file(child_path(dir, e0.name@)) {
                    assert(m1.files == m.files);
                } else {
                    assert(m1.files == m.files.push(child_path(dir, e0.name@)));
                    assert(is_file_child(m1.files[m.files.len() as int], dir, entries));
                }
            },
            EntryKind::Dir => {
                assert(m1.files == m.files);
                if rules.spec_matches_dir(child_path(dir, e0.name@)) {
                    assert(m1.pending == m.pending);
                } else {
                    assert(m1.pending == m.pending.push(child_path(dir, e0.name@)));
                    assert(is_dir_child(m1.pending[m.pending.len() as int], dir, entries));
                }
            },
        }
        assert forall|j: int|
            m.pending.len() <= j < m2.pending.len() implies is_dir_child(
            #[trigger] m2.pending[j],
            dir,
            entries,
        ) by {
            if j < m1.pending.len() {
                assert(m2.pending[j] == m1.pending[j]);
                assert(is_dir_child(m1.pending[j], dir, entries));
            } else {
                assert(is_dir_child(m2.pending[j], dir, entries.drop_first()));
                lemma_child_lift_dir(m2.pending[j], dir, entries);
            }
        }
        assert forall|j: int|
            m.files.len() <= j < m2.files.len() implies is_file_child(
            #[trigger] m2.files[j],
            dir,
            entries,
        ) by {
            if j < m1.files.len() {
                assert(m2.files[j] == m1.files[j]);
                assert(is_file_child(m1.files[j], dir, entries));
            } else {
                assert(is_file_child(m2.files[j], dir, entries.drop_first()));
                lemma_child_lift_file(m2.files[j], dir, entries);
            }
        }
        assert forall|j: int| 0 <= j < m.pending.len() implies m2.pending[j] == m.pending[j] by {
            assert(m2.pending[j] == m1.pending[j]);
        }
        assert forall|j: int| 0 <= j < m.files.len() implies m2.files[j] == m.files[j] by {
            assert(m2.files[j] == m1.files[j]);
        }
    }
}

} // verus!
