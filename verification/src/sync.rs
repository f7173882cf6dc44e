//! The synchronization plan: what must change on the target tree, and in
//! what order it may safely be applied.

use vstd::prelude::*;

use crate::fs::{Directory, File};
use crate::path::{lemma_path_lt_trichotomy, lemma_prefix_path_lt, path_lt, EntryPath};
use crate::reconcile::{
    diff_directories, diff_files, dirs_path_unique, files_path_unique, has_dir, has_file,
    has_file_sized, lemma_dirs_strictly_sorted, lemma_files_strictly_sorted,
    lemma_has_file_with_some_size, lemma_multiset_eq_has_dir, lemma_multiset_eq_has_file,
    lemma_multiset_eq_key_unique, lemma_sorted_no_duplicates, needs_copy, path_views,
    paths_sorted, same_size_in_both, sort_directories, sort_files,
};
use crate::scan::DirectoryScanList;

verus! {

/// A plan of the four ordered operation lists that make the target tree
/// equal to the source tree. The executor applies them in a fixed order —
/// remove files, remove directories, create directories, copy files — so
/// that no removal meets a non-empty directory, no create collides with a
/// leftover entry of the same name, and no copy runs before its parent
/// directory exists.
#[derive(Debug, Default, PartialEq, Eq)]
pub struct Sync {
    pub remove_files: Vec<EntryPath>,
    pub remove_directories: Vec<EntryPath>,
    pub create_directories: Vec<EntryPath>,
    pub copy_files: Vec<EntryPath>,
}

/// `plan` is exactly the reconciliation of `source` against `target`:
/// each list is strictly sorted in the lexicographic path order (so every
/// ancestor precedes its descendants, and no list repeats a path), the
/// directory lists hold exactly the one-sided directory paths, the remove
/// list exactly the files only the target has, and the copy list exactly the
/// files whose size-keyed content the target lacks.
pub open spec fn is_plan_for(
    plan: Sync,
    source: DirectoryScanList,
    target: DirectoryScanList,
) -> bool {
    &&& paths_sorted(path_views(plan.remove_files@))
    &&& paths_sorted(path_views(plan.remove_directories@))
    &&& paths_sorted(path_views(plan.create_directories@))
    &&& paths_sorted(path_views(plan.copy_files@))
    &&& forall|p: Seq<Seq<u8>>|
        #[trigger] path_views(plan.create_directories@).contains(p) <==> has_dir(
            source.directories@,
            p,
        ) && !has_dir(target.directories@, p)
    &&& forall|p: Seq<Seq<u8>>|
        #[trigger] path_views(plan.remove_directories@).contains(p) <==> has_dir(
            target.directories@,
            p,
        ) && !has_dir(source.directories@, p)
    &&& forall|p: Seq<Seq<u8>>|
        #[trigger] path_views(plan.remove_files@).contains(p) <==> has_file(target.files@, p)
            && !has_file(source.files@, p)
    &&& forall|p: Seq<Seq<u8>>|
        #[trigger] path_views(plan.copy_files@).contains(p) <==> needs_copy(
            source.files@,
            target.files@,
            p,
        )
}

impl Sync {
    /// Reconcile two snapshots: compute the plan that makes `target` equal
    /// to `source`. Directories and files are reconciled independently; each
    /// side is sorted by path and the two sorted lists are merged linearly.
    pub fn unidirectional(source: DirectoryScanList, target: DirectoryScanList) -> (r: Sync)
        requires
            source.wf(),
            target.wf(),
        ensures
            is_plan_for(r, source, target),
    {
        let ghost src0 = source;
        let ghost tgt0 = target;
        let (source_directories, source_files) = source.into_parts();
        let (target_directories, target_files) = target.into_parts();
        let source_directories = sort_directories(source_directories);
        let target_directories = sort_directories(target_directories);
        let source_files = sort_files(source_files);
        let target_files = sort_files(target_files);
        proof {
            let dir_key = |d: Directory| d.path@;
            let file_key = |f: File| f.path@;
            lemma_multiset_eq_key_unique(src0.directories@, source_directories@, dir_key);
            lemma_multiset_eq_key_unique(tgt0.directories@, target_directories@, dir_key);
            lemma_multiset_eq_key_unique(src0.files@, source_files@, file_key);
            lemma_multiset_eq_key_unique(tgt0.files@, target_files@, file_key);
            assert(dirs_path_unique(source_directories@));
            assert(dirs_path_unique(target_directories@));
            assert(files_path_unique(source_files@));
            assert(files_path_unique(target_files@));
            lemma_dirs_strictly_sorted(source_directories@);
            lemma_dirs_strictly_sorted(target_directories@);
            lemma_files_strictly_sorted(source_files@);
            lemma_files_strictly_sorted(target_files@);
            lemma_multiset_eq_has_dir(src0.directories@, source_directories@);
            lemma_multiset_eq_has_dir(tgt0.directories@, target_directories@);
            lemma_multiset_eq_has_file(src0.files@, source_files@);
            lemma_multiset_eq_has_file(tgt0.files@, target_files@);
        }
        let ghost sorted_src_files = source_files@;
        let ghost sorted_tgt_files = target_files@;
        let (create_directories, remove_directories) = diff_directories(
            source_directories,
            target_directories,
        );
        let (copy_files, remove_files) = diff_files(source_files, target_files);
        proof {
            // Reordering the inputs did not change which paths need copying.
            assert forall|p: Seq<Seq<u8>>|
                needs_copy(sorted_src_files, sorted_tgt_files, p) <==> needs_copy(
                    src0.files@,
                    tgt0.files@,
                    p,
                ) by {
                assert(has_file(sorted_src_files, p) <==> has_file(src0.files@, p));
                assert(same_size_in_both(sorted_src_files, sorted_tgt_files, p)
                    <==> same_size_in_both(src0.files@, tgt0.files@, p)) by {
                    if same_size_in_both(sorted_src_files, sorted_tgt_files, p) {
                        let size = choose|size: u64|
                            has_file_sized(sorted_src_files, p, size) && has_file_sized(
                                sorted_tgt_files,
                                p,
                                size,
                            );
                        assert(has_file_sized(src0.files@, p, size) && has_file_sized(
                            tgt0.files@,
                            p,
                            size,
                        ));
                    }
                    if same_size_in_both(src0.files@, tgt0.files@, p) {
                        let size = choose|size: u64|
                            has_file_sized(src0.files@, p, size) && has_file_sized(
                                tgt0.files@,
                                p,
                                size,
                            );
                        assert(has_file_sized(sorted_src_files, p, size) && has_file_sized(
                            sorted_tgt_files,
                            p,
                            size,
                        ));
                    }
                }
            }
        }
        Sync { remove_files, remove_directories, create_directories, copy_files }
    }

    pub fn remove_files(&self) -> (r: &Vec<EntryPath>)
        ensures
            r == &self.remove_files,
    {
        &self.remove_files
    }

    pub fn remove_directories(&self) -> (r: &Vec<EntryPath>)
        ensures
            r == &self.remove_directories,
    {
        &self.remove_directories
    }

    pub fn create_directories(&self) -> (r: &Vec<EntryPath>)
        ensures
            r == &self.create_directories,
    {
        &self.create_directories
    }

    pub fn copy_files(&self) -> (r: &Vec<EntryPath>)
        ensures
            r == &self.copy_files,
    {
        &self.copy_files
    }
}

/// One instruction of a batched remote transfer session.
#[derive(Debug, PartialEq, Eq)]
pub enum RemoteOp {
    /// Remove the file at this path under the remote root.
    RemoveFile(EntryPath),
    /// Create the directory at this path under the remote root.
    CreateDirectory(EntryPath),
    /// Copy the file at this path from the local root to the remote root.
    CopyFile(EntryPath),
}

/// The paths selected by a run of flags: those list entries whose flag is
/// set, kept in list order.
pub open spec fn flagged_paths(s: Seq<Seq<Seq<u8>>>, flags: Seq<bool>) -> Seq<Seq<Seq<u8>>>
    recommends
        s.len() == flags.len(),
    decreases s.len(),
{
    if s.len() == 0 || flags.len() == 0 {
        Seq::empty()
    } else if flags.last() {
        flagged_paths(s.drop_last(), flags.drop_last()).push(s.last())
    } else {
        flagged_paths(s.drop_last(), flags.drop_last())
    }
}

impl Sync {
    /// The instruction batch that applies this plan to a remote target, in
    /// plan order: file removals first, then directory creations, then file
    /// copies. Directory removal is deliberately absent: the remote side
    /// cannot be cheaply asked whether a directory is empty, and removing a
    /// possibly non-empty remote directory would destroy data, so orphaned
    /// empty directories are accepted there.
    pub fn remote_operations(&self) -> (r: Vec<RemoteOp>)
        ensures
            r@.len() == self.remove_files@.len() + self.create_directories@.len()
                + self.copy_files@.len(),
            forall|k: int|
                0 <= k < self.remove_files@.len() ==> ((#[trigger] r@[k]) matches
                    RemoteOp::RemoveFile(p) && p@ == self.remove_files@[k]@),
            forall|k: int|
                0 <= k < self.create_directories@.len() ==> ((#[trigger] r@[self.remove_files@.len()
                    + k]) matches RemoteOp::CreateDirectory(p) && p@
                    == self.create_directories@[k]@),
            forall|k: int|
                0 <= k < self.copy_files@.len() ==> ((#[trigger] r@[self.remove_files@.len()
                    + self.create_directories@.len() + k]) matches RemoteOp::CopyFile(p) && p@
                    == self.copy_files@[k]@),
    {
        let mut r: Vec<RemoteOp> = Vec::new();
        let mut k: usize = 0;
        while k < self.remove_files.len()
            invariant
                0 <= k <= self.remove_files@.len(),
                r@.len() == k,
                forall|a: int|
                    0 <= a < k ==> ((#[trigger] r@[a]) matches RemoteOp::RemoveFile(p) && p@
                        == self.remove_files@[a]@),
            decreases self.remove_files@.len() - k,
        {
            r.push(RemoteOp::RemoveFile(self.remove_files[k].duplicate()));
            k += 1;
        }
        let mut k: usize = 0;
        while k < self.create_directories.len()
            invariant
                0 <= k <= self.create_directories@.len(),
                r@.len() == self.remove_files@.len() + k,
                forall|a: int|
                    0 <= a < self.remove_files@.len() ==> ((#[trigger] r@[a]) matches
                        RemoteOp::RemoveFile(p) && p@ == self.remove_files@[a]@),
                forall|a: int|
                    0 <= a < k ==> ((#[trigger] r@[self.remove_files@.len() + a]) matches
                        RemoteOp::CreateDirectory(p) && p@ == self.create_directories@[a]@),
            decreases self.create_directories@.len() - k,
        {
            r.push(RemoteOp::CreateDirectory(self.create_directories[k].duplicate()));
            k += 1;
        }
        let mut k: usize = 0;
        while k < self.copy_files.len()
            invariant
                0 <= k <= self.copy_files@.len(),
                r@.len() == self.remove_files@.len() + self.create_directories@.len() + k,
                forall|a: int|
                    0 <= a < self.remove_files@.len() ==> ((#[trigger] r@[a]) matches
                        RemoteOp::RemoveFile(p) && p@ == self.remove_files@[a]@),
                forall|a: int|
                    0 <= a < self.create_directories@.len() ==> ((#[trigger] r@[
                    self.remove_files@.len() + a]) matches RemoteOp::CreateDirectory(p) && p@
                        == self.create_directories@[a]@),
                forall|a: int|
                    0 <= a < k ==> ((#[trigger] r@[self.remove_files@.len()
                        + self.create_directories@.len() + a]) matches RemoteOp::CopyFile(p) && p@
                        == self.copy_files@[a]@),
            decreases self.copy_files@.len() - k,
        {
            r.push(RemoteOp::CopyFile(self.copy_files[k].duplicate()));
            k += 1;
        }
        r
    }

    /// The directories of this plan that may actually be removed from a
    /// local target: `empty` reports, entry by entry, whether the directory
    /// was observed empty at removal time, and only the observed-empty ones
    /// are kept, in plan order. A non-empty directory is silently left in
    /// place — the target may hold ignored entries invisible to the source,
    /// and those must not be destroyed.
    pub fn local_directory_removals(&self, empty: &Vec<bool>) -> (r: Vec<EntryPath>)
        requires
            empty@.len() == self.remove_directories@.len(),
        ensures
            path_views(r@) == flagged_paths(path_views(self.remove_directories@), empty@),
    {
        let mut r: Vec<EntryPath> = Vec::new();
        let mut k: usize = 0;
        proof {
            assert(path_views(r@) =~= flagged_paths(
                path_views(self.remove_directories@).take(0),
                empty@.take(0),
            ));
        }
        while k < self.remove_directories.len()
            invariant
                0 <= k <= self.remove_directories@.len(),
                empty@.len() == self.remove_directories@.len(),
                path_views(r@) == flagged_paths(
                    path_views(self.remove_directories@).take(k as int),
                    empty@.take(k as int),
                ),
            decreases self.remove_directories@.len() - k,
        {
            let ghost paths = path_views(self.remove_directories@);
            proof {
                assert(paths.take(k + 1).drop_last() =~= paths.take(k as int));
                assert(empty@.take(k + 1).drop_last() =~= empty@.take(k as int));
                assert(paths.take(k + 1).last() == paths[k as int]);
                assert(empty@.take(k + 1).last() == empty@[k as int]);
                assert(paths[k as int] == self.remove_directories@[k as int]@);
            }
            if empty[k] {
                let dup = self.remove_directories[k].duplicate();
                proof {
                    assert(path_views(r@.push(dup)) =~= path_views(r@).push(dup@));
                }
                r.push(dup);
            }
            k += 1;
        }
        proof {
            assert(path_views(self.remove_directories@).take(
                self.remove_directories@.len() as int,
            ) =~= path_views(self.remove_directories@));
            assert(empty@.take(empty@.len() as int) =~= empty@);
        }
        r
    }
}

/// Disjointness: no list of one plan repeats a path, and no path is both
/// removed and copied.
pub proof fn lemma_plan_disjoint(plan: Sync, source: DirectoryScanList, target: DirectoryScanList)
    requires
        is_plan_for(plan, source, target),
    ensures
        path_views(plan.remove_files@).no_duplicates(),
        path_views(plan.remove_directories@).no_duplicates(),
        path_views(plan.create_directories@).no_duplicates(),
        path_views(plan.copy_files@).no_duplicates(),
        forall|p: Seq<Seq<u8>>|
            !(#[trigger] path_views(plan.remove_files@).contains(p) && path_views(
                plan.copy_files@,
            ).contains(p)),
{
    lemma_sorted_no_duplicates(path_views(plan.remove_files@));
    lemma_sorted_no_duplicates(path_views(plan.remove_directories@));
    lemma_sorted_no_duplicates(path_views(plan.create_directories@));
    lemma_sorted_no_duplicates(path_views(plan.copy_files@));
}

/// Symmetry of kind: a file the source has and the target lacks is copied,
/// exactly once, and its path is neither created as a directory nor removed
/// as a file.
pub proof fn lemma_kind_symmetry(
    plan: Sync,
    source: DirectoryScanList,
    target: DirectoryScanList,
    p: Seq<Seq<u8>>,
    size: u64,
)
    requires
        source.wf(),
        target.wf(),
        is_plan_for(plan, source, target),
        has_file_sized(source.files@, p, size),
        !has_file(target.files@, p),
    ensures
        path_views(plan.copy_files@).contains(p),
        path_views(plan.copy_files@).no_duplicates(),
        !path_views(plan.create_directories@).contains(p),
        !path_views(plan.remove_files@).contains(p),
{
    lemma_sorted_no_duplicates(path_views(plan.copy_files@));
    assert(has_file(source.files@, p)) by {
        let k = choose|k: int|
            0 <= k < source.files@.len() && (#[trigger] source.files@[k]).path@ == p
                && source.files@[k].size == size;
        assert((#[trigger] source.files@[k]).path@ == p);
    }
    assert(!same_size_in_both(source.files@, target.files@, p)) by {
        if same_size_in_both(source.files@, target.files@, p) {
            let sz = choose|sz: u64|
                has_file_sized(source.files@, p, sz) && has_file_sized(target.files@, p, sz);
            let m = choose|m: int|
                0 <= m < target.files@.len() && (#[trigger] target.files@[m]).path@ == p
                    && target.files@[m].size == sz;
            assert((#[trigger] target.files@[m]).path@ == p);
        }
    }
    assert(needs_copy(source.files@, target.files@, p));
    assert(!path_views(plan.create_directories@).contains(p)) by {
        if path_views(plan.create_directories@).contains(p) {
            assert(has_dir(source.directories@, p));
            let k = choose|k: int|
                0 <= k < source.directories@.len() && (#[trigger] source.directories@[k]).path@
                    == p;
            assert(!has_file(source.files@, (#[trigger] source.directories@[k]).path@));
        }
    }
}

/// Ordering invariant: in a strictly sorted operation list — as every list
/// of a plan is — an ancestor directory's path stands before the path of
/// any of its descendants.
pub proof fn lemma_ancestor_precedes_descendant(s: Seq<Seq<Seq<u8>>>, k: int, m: int)
    requires
        paths_sorted(s),
        0 <= k < s.len(),
        0 <= m < s.len(),
        s[k].len() < s[m].len(),
        s[k] == s[m].take(s[k].len() as int),
    ensures
        k < m,
{
    lemma_prefix_path_lt(s[k], s[m]);
    if m < k {
        assert(path_lt(s[m], s[k]));
        lemma_path_lt_trichotomy(s[k], s[m]);
    }
    if m == k {
        lemma_path_lt_trichotomy(s[k], s[m]);
    }
}

/// Size-only equality: a file the two sides hold with one and the same size
/// is never copied, whatever else may differ about it.
pub proof fn lemma_equal_size_never_copied(
    plan: Sync,
    source: DirectoryScanList,
    target: DirectoryScanList,
    p: Seq<Seq<u8>>,
    size: u64,
)
    requires
        is_plan_for(plan, source, target),
        has_file_sized(source.files@, p, size),
        has_file_sized(target.files@, p, size),
    ensures
        !path_views(plan.copy_files@).contains(p),
{
    assert(same_size_in_both(source.files@, target.files@, p));
}

/// Idempotence: once a plan has been applied, reconciling the mutated
/// target against the same source yields the empty plan — applying a plan
/// makes the two trees equal.
///
/// `applied` stands for the target after the plan: it holds a directory
/// exactly when the target held it and the plan did not remove it, or the
/// plan created it; and it holds a file of a given size exactly when the
/// plan copied that file from the source, or the target held it unchanged
/// and the plan did not remove it.
pub proof fn lemma_apply_plan_idempotent(
    plan: Sync,
    source: DirectoryScanList,
    target: DirectoryScanList,
    applied: DirectoryScanList,
    replan: Sync,
)
    requires
        source.wf(),
        target.wf(),
        is_plan_for(plan, source, target),
        forall|p: Seq<Seq<u8>>|
            #[trigger] has_dir(applied.directories@, p) <==> ((has_dir(target.directories@, p)
                && !path_views(plan.remove_directories@).contains(p)) || path_views(
                plan.create_directories@,
            ).contains(p)),
        forall|p: Seq<Seq<u8>>, size: u64|
            #[trigger] has_file_sized(applied.files@, p, size) <==> (if path_views(
                plan.copy_files@,
            ).contains(p) {
                has_file_sized(source.files@, p, size)
            } else {
                has_file_sized(target.files@, p, size) && !path_views(
                    plan.remove_files@,
                ).contains(p)
            }),
        is_plan_for(replan, source, applied),
    ensures
        replan.remove_files@.len() == 0,
        replan.remove_directories@.len() == 0,
        replan.create_directories@.len() == 0,
        replan.copy_files@.len() == 0,
{
    lemma_has_file_with_some_size(source.files@);
    lemma_has_file_with_some_size(target.files@);
    lemma_has_file_with_some_size(applied.files@);
    // No directory is left to create.
    assert forall|p: Seq<Seq<u8>>|
        !(#[trigger] path_views(replan.create_directories@).contains(p)) by {
        if path_views(replan.create_directories@).contains(p) {
            assert(has_dir(source.directories@, p) && !has_dir(applied.directories@, p));
            if has_dir(target.directories@, p) {
                assert(!path_views(plan.remove_directories@).contains(p));
            } else {
                assert(path_views(plan.create_directories@).contains(p));
            }
            assert(has_dir(applied.directories@, p));
        }
    }
    // No directory is left to remove.
    assert forall|p: Seq<Seq<u8>>|
        !(#[trigger] path_views(replan.remove_directories@).contains(p)) by {
        if path_views(replan.remove_directories@).contains(p) {
            assert(has_dir(applied.directories@, p) && !has_dir(source.directories@, p));
            if path_views(plan.create_directories@).contains(p) {
                assert(has_dir(source.directories@, p));
            } else {
                assert(has_dir(target.directories@, p));
                assert(path_views(plan.remove_directories@).contains(p));
            }
        }
    }
    // No file is left to remove.
    assert forall|p: Seq<Seq<u8>>| !(#[trigger] path_views(replan.remove_files@).contains(p)) by {
        if path_views(replan.remove_files@).contains(p) {
            assert(has_file(applied.files@, p) && !has_file(source.files@, p));
            let size = choose|size: u64| has_file_sized(applied.files@, p, size);
            if path_views(plan.copy_files@).contains(p) {
                assert(has_file_sized(source.files@, p, size));
                assert(has_file(source.files@, p));
            } else {
                assert(has_file_sized(target.files@, p, size));
                assert(has_file(target.files@, p));
                assert(path_views(plan.remove_files@).contains(p));
            }
        }
    }
    // No file is left to copy.
    assert forall|p: Seq<Seq<u8>>| !(#[trigger] path_views(replan.copy_files@).contains(p)) by {
        if path_views(replan.copy_files@).contains(p) {
            assert(needs_copy(source.files@, applied.files@, p));
            assert(has_file(source.files@, p));
            let size0 = choose|size0: u64| has_file_sized(source.files@, p, size0);
            if path_views(plan.copy_files@).contains(p) {
                assert(has_file_sized(applied.files@, p, size0));
                assert(same_size_in_both(source.files@, applied.files@, p));
            } else {
                assert(!needs_copy(source.files@, target.files@, p));
                assert(same_size_in_both(source.files@, target.files@, p));
                let size = choose|size: u64|
                    has_file_sized(source.files@, p, size) && has_file_sized(
                        target.files@,
                        p,
                        size,
                    );
                assert(has_file(target.files@, p));
                assert(!path_views(plan.remove_files@).contains(p));
                assert(has_file_sized(applied.files@, p, size));
                assert(same_size_in_both(source.files@, applied.files@, p));
            }
        }
    }
    // Lists without members are empty.
    if replan.create_directories@.len() > 0 {
        assert(path_views(replan.create_directories@).contains(
            path_views(replan.create_directories@)[0],
        ));
    }
    if replan.remove_directories@.len() > 0 {
        assert(path_views(replan.remove_directories@).contains(
            path_views(replan.remove_directories@)[0],
        ));
    }
    if replan.remove_files@.len() > 0 {
        assert(path_views(replan.remove_files@).contains(path_views(replan.remove_files@)[0]));
    }
    if replan.copy_files@.len() > 0 {
        assert(path_views(replan.copy_files@).contains(path_views(replan.copy_files@)[0]));
    }
}

} // verus!
