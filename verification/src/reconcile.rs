//! The reconciliation model: what a snapshot contains, what order entries
//! come in, and the verified sort and merge passes that the planner is built
//! from.

use vstd::prelude::*;

use crate::fs::{Directory, File};
use crate::path::{
    lemma_path_lt_le_trans, lemma_path_lt_trans, lemma_path_lt_trichotomy, path_le, path_lt,
    EntryPath, PathOrder,
};

verus! {

broadcast use
    vstd::seq_lib::group_to_multiset_ensures,
    vstd::multiset::group_multiset_axioms,
;

/// The paths of a sequence of directory entries, in entry order.
pub open spec fn dir_paths(s: Seq<Directory>) -> Seq<Seq<Seq<u8>>> {
    s.map_values(|d: Directory| d.path@)
}

/// The paths of a sequence of file entries, in entry order.
pub open spec fn file_paths(s: Seq<File>) -> Seq<Seq<Seq<u8>>> {
    s.map_values(|f: File| f.path@)
}

/// The path views of a sequence of paths.
pub open spec fn path_views(s: Seq<EntryPath>) -> Seq<Seq<Seq<u8>>> {
    s.map_values(|p: EntryPath| p@)
}

/// Some directory entry among the first `n` has path `p`.
pub open spec fn has_dir_upto(s: Seq<Directory>, n: int, p: Seq<Seq<u8>>) -> bool {
    exists|i: int| 0 <= i < n && i < s.len() && (#[trigger] s[i]).path@ == p
}

/// Some directory entry has path `p`.
pub open spec fn has_dir(s: Seq<Directory>, p: Seq<Seq<u8>>) -> bool {
    has_dir_upto(s, s.len() as int, p)
}

/// Some file entry among the first `n` has path `p`.
pub open spec fn has_file_upto(s: Seq<File>, n: int, p: Seq<Seq<u8>>) -> bool {
    exists|i: int| 0 <= i < n && i < s.len() && (#[trigger] s[i]).path@ == p
}

/// Some file entry has path `p`.
pub open spec fn has_file(s: Seq<File>, p: Seq<Seq<u8>>) -> bool {
    has_file_upto(s, s.len() as int, p)
}

/// Some file entry among the first `n` has path `p` and size `size`.
pub open spec fn has_file_sized_upto(s: Seq<File>, n: int, p: Seq<Seq<u8>>, size: u64) -> bool {
    exists|i: int|
        0 <= i < n && i < s.len() && (#[trigger] s[i]).path@ == p && s[i].size == size
}

/// Some file entry has path `p` and size `size`.
pub open spec fn has_file_sized(s: Seq<File>, p: Seq<Seq<u8>>, size: u64) -> bool {
    has_file_sized_upto(s, s.len() as int, p, size)
}

/// One of the first `n` source entries and some target entry hold a file at
/// `p` of one and the same size.
pub open spec fn same_size_upto(src: Seq<File>, n: int, tgt: Seq<File>, p: Seq<Seq<u8>>) -> bool {
    exists|size: u64| has_file_sized_upto(src, n, p, size) && has_file_sized(tgt, p, size)
}

/// Both sides hold a file at `p` of one and the same size.
pub open spec fn same_size_in_both(src: Seq<File>, tgt: Seq<File>, p: Seq<Seq<u8>>) -> bool {
    same_size_upto(src, src.len() as int, tgt, p)
}

/// Among the first `n` source entries there is a file at `p` that the target
/// either lacks or holds with a different size.
pub open spec fn needs_copy_upto(src: Seq<File>, n: int, tgt: Seq<File>, p: Seq<Seq<u8>>) -> bool {
    has_file_upto(src, n, p) && !same_size_upto(src, n, tgt, p)
}

/// The source holds a file at `p` that the target either lacks or holds with
/// a different size: the file must be copied.
pub open spec fn needs_copy(src: Seq<File>, tgt: Seq<File>, p: Seq<Seq<u8>>) -> bool {
    needs_copy_upto(src, src.len() as int, tgt, p)
}

/// Strictly ascending in the lexicographic path order.
pub open spec fn paths_sorted(s: Seq<Seq<Seq<u8>>>) -> bool {
    forall|k: int, m: int| #![trigger s[k], s[m]] 0 <= k < m < s.len() ==> path_lt(s[k], s[m])
}

/// Directory entries in strictly ascending path order.
pub open spec fn dirs_sorted_lt(s: Seq<Directory>) -> bool {
    forall|k: int, m: int| #![trigger s[k], s[m]]
        0 <= k < m < s.len() ==> path_lt(s[k].path@, s[m].path@)
}

/// File entries in strictly ascending path order.
pub open spec fn files_sorted_lt(s: Seq<File>) -> bool {
    forall|k: int, m: int| #![trigger s[k], s[m]]
        0 <= k < m < s.len() ==> path_lt(s[k].path@, s[m].path@)
}

/// Directory entries in non-strict ascending path order.
pub open spec fn dirs_sorted_le(s: Seq<Directory>) -> bool {
    forall|k: int, m: int| #![trigger s[k], s[m]]
        0 <= k < m < s.len() ==> path_le(s[k].path@, s[m].path@)
}

/// File entries in non-strict ascending path order.
pub open spec fn files_sorted_le(s: Seq<File>) -> bool {
    forall|k: int, m: int| #![trigger s[k], s[m]]
        0 <= k < m < s.len() ==> path_le(s[k].path@, s[m].path@)
}

/// No two directory entries share a path.
pub open spec fn dirs_path_unique(s: Seq<Directory>) -> bool {
    forall|k: int, m: int| #![trigger s[k], s[m]]
        0 <= k < m < s.len() ==> s[k].path@ != s[m].path@
}

/// No two file entries share a path.
pub open spec fn files_path_unique(s: Seq<File>) -> bool {
    forall|k: int, m: int| #![trigger s[k], s[m]]
        0 <= k < m < s.len() ==> s[k].path@ != s[m].path@
}

/// Pushing onto a sequence extends its membership by the new element.
pub proof fn lemma_contains_push<T>(s: Seq<T>, x: T, y: T)
    ensures
        s.push(x).contains(y) <==> (s.contains(y) || x == y),
{
    if s.contains(y) {
        let k = choose|k: int| 0 <= k < s.len() && s[k] == y;
        assert(s.push(x)[k] == y);
    }
    assert(s.push(x)[s.len() as int] == x);
    if s.push(x).contains(y) {
        let k = choose|k: int| 0 <= k < s.push(x).len() && s.push(x)[k] == y;
        if k < s.len() {
            assert(s[k] == y);
        }
    }
}

/// Two sequences with equal multisets contain the same elements.
pub proof fn lemma_multiset_eq_contains<T>(s1: Seq<T>, s2: Seq<T>)
    requires
        s1.to_multiset() == s2.to_multiset(),
    ensures
        forall|x: T| s1.contains(x) <==> s2.contains(x),
{
    assert forall|x: T| #![trigger s1.contains(x)] #![trigger s2.contains(x)]
        s1.contains(x) <==> s2.contains(x) by {
        assert(s1.contains(x) <==> s1.to_multiset().count(x) > 0);
        assert(s2.contains(x) <==> s2.to_multiset().count(x) > 0);
    }
}

/// Rearranging a sequence cannot create a duplicate key: if the entries of
/// `s1` have pairwise distinct keys and `s2` holds the same entries (as a
/// multiset), the entries of `s2` have pairwise distinct keys too.
pub proof fn lemma_multiset_eq_key_unique<T, K>(s1: Seq<T>, s2: Seq<T>, key: spec_fn(T) -> K)
    requires
        s1.to_multiset() == s2.to_multiset(),
        forall|k: int, m: int| #![trigger s1[k], s1[m]]
            0 <= k < m < s1.len() ==> key(s1[k]) != key(s1[m]),
    ensures
        forall|k: int, m: int| #![trigger s2[k], s2[m]]
            0 <= k < m < s2.len() ==> key(s2[k]) != key(s2[m]),
{
    assert forall|k: int, m: int| #![trigger s2[k], s2[m]]
        0 <= k < m < s2.len() implies key(s2[k]) != key(s2[m]) by {
        if key(s2[k]) == key(s2[m]) {
            if s2[k] == s2[m] {
                // The same entry occurs twice in s2, so its count is at
                // least 2, and the same must hold in s1.
                let e = s2[k];
                assert(s2.remove(m).to_multiset() =~= s2.to_multiset().remove(e));
                assert(s2.remove(m)[k] == e);
                assert(s2.remove(m).contains(e));
                assert(s2.remove(m).to_multiset().count(e) > 0);
                assert(s2.to_multiset().remove(e).count(e) == s2.to_multiset().count(e) - 1);
                assert(s2.to_multiset().count(e) >= 2);
                assert(s1.to_multiset().count(e) >= 2);
                assert(s1.contains(e));
                let a = choose|a: int| 0 <= a < s1.len() && s1[a] == e;
                assert(s1.remove(a).to_multiset() =~= s1.to_multiset().remove(e));
                assert(s1.to_multiset().remove(e).count(e) == s1.to_multiset().count(e) - 1);
                assert(s1.remove(a).to_multiset().count(e) >= 1);
                assert(s1.remove(a).contains(e));
                let b = choose|b: int| 0 <= b < s1.remove(a).len() && s1.remove(a)[b] == e;
                if b < a {
                    assert(s1[b] == e);
                    assert(key(s1[b]) != key(s1[a]));
                } else {
                    assert(s1[b + 1] == e);
                    assert(key(s1[a]) != key(s1[b + 1]));
                }
            } else {
                assert(s2.contains(s2[k]));
                assert(s2.contains(s2[m]));
                assert(s2.to_multiset().count(s2[k]) > 0);
                assert(s2.to_multiset().count(s2[m]) > 0);
                assert(s1.to_multiset().count(s2[k]) > 0);
                assert(s1.to_multiset().count(s2[m]) > 0);
                assert(s1.contains(s2[k]));
                assert(s1.contains(s2[m]));
                let a = choose|a: int| 0 <= a < s1.len() && s1[a] == s2[k];
                let b = choose|b: int| 0 <= b < s1.len() && s1[b] == s2[m];
                if a < b {
                    assert(key(s1[a]) != key(s1[b]));
                } else {
                    assert(key(s1[b]) != key(s1[a]));
                }
            }
        }
    }
}

/// A strictly sorted path list never repeats a path.
pub proof fn lemma_sorted_no_duplicates(s: Seq<Seq<Seq<u8>>>)
    requires
        paths_sorted(s),
    ensures
        s.no_duplicates(),
{
    assert forall|i: int, j: int|
        0 <= i < s.len() && 0 <= j < s.len() && i != j implies s[i] != s[j] by {
        if i < j {
            assert(path_lt(s[i], s[j]));
            lemma_path_lt_trichotomy(s[i], s[j]);
        } else {
            assert(path_lt(s[j], s[i]));
            lemma_path_lt_trichotomy(s[j], s[i]);
        }
    }
}

/// A file is present exactly when it is present with some size.
pub proof fn lemma_has_file_with_some_size(s: Seq<File>)
    ensures
        forall|p: Seq<Seq<u8>>|
            #[trigger] has_file(s, p) <==> exists|size: u64| has_file_sized(s, p, size),
{
    assert forall|p: Seq<Seq<u8>>|
        #[trigger] has_file(s, p) <==> exists|size: u64| has_file_sized(s, p, size) by {
        if has_file(s, p) {
            let k = choose|k: int| 0 <= k < s.len() && (#[trigger] s[k]).path@ == p;
            assert(has_file_sized(s, p, s[k].size)) by {
                assert((#[trigger] s[k]).path@ == p && s[k].size == s[k].size);
            }
        }
        if exists|size: u64| has_file_sized(s, p, size) {
            let size = choose|size: u64| has_file_sized(s, p, size);
            let k = choose|k: int|
                0 <= k < s.len() && (#[trigger] s[k]).path@ == p && s[k].size == size;
            assert((#[trigger] s[k]).path@ == p);
        }
    }
}

/// Reordering directory entries changes no path membership.
pub proof fn lemma_multiset_eq_has_dir(s1: Seq<Directory>, s2: Seq<Directory>)
    requires
        s1.to_multiset() == s2.to_multiset(),
    ensures
        forall|p: Seq<Seq<u8>>| has_dir(s1, p) <==> has_dir(s2, p),
{
    lemma_multiset_eq_contains(s1, s2);
    assert forall|p: Seq<Seq<u8>>| #![trigger has_dir(s1, p)] #![trigger has_dir(s2, p)]
        has_dir(s1, p) <==> has_dir(s2, p) by {
        if has_dir(s1, p) {
            let k = choose|k: int| 0 <= k < s1.len() && (#[trigger] s1[k]).path@ == p;
            assert(s1.contains(s1[k]));
            assert(s2.contains(s1[k]));
            let m = choose|m: int| 0 <= m < s2.len() && s2[m] == s1[k];
            assert((#[trigger] s2[m]).path@ == p);
        }
        if has_dir(s2, p) {
            let k = choose|k: int| 0 <= k < s2.len() && (#[trigger] s2[k]).path@ == p;
            assert(s2.contains(s2[k]));
            assert(s1.contains(s2[k]));
            let m = choose|m: int| 0 <= m < s1.len() && s1[m] == s2[k];
            assert((#[trigger] s1[m]).path@ == p);
        }
    }
}

/// Reordering file entries changes neither path membership nor sizes.
pub proof fn lemma_multiset_eq_has_file(s1: Seq<File>, s2: Seq<File>)
    requires
        s1.to_multiset() == s2.to_multiset(),
    ensures
        forall|p: Seq<Seq<u8>>| has_file(s1, p) <==> has_file(s2, p),
        forall|p: Seq<Seq<u8>>, size: u64|
            has_file_sized(s1, p, size) <==> has_file_sized(s2, p, size),
{
    lemma_multiset_eq_contains(s1, s2);
    assert forall|p: Seq<Seq<u8>>| #![trigger has_file(s1, p)] #![trigger has_file(s2, p)]
        has_file(s1, p) <==> has_file(s2, p) by {
        if has_file(s1, p) {
            let k = choose|k: int| 0 <= k < s1.len() && (#[trigger] s1[k]).path@ == p;
            assert(s1.contains(s1[k]));
            assert(s2.contains(s1[k]));
            let m = choose|m: int| 0 <= m < s2.len() && s2[m] == s1[k];
            assert((#[trigger] s2[m]).path@ == p);
        }
        if has_file(s2, p) {
            let k = choose|k: int| 0 <= k < s2.len() && (#[trigger] s2[k]).path@ == p;
            assert(s2.contains(s2[k]));
            assert(s1.contains(s2[k]));
            let m = choose|m: int| 0 <= m < s1.len() && s1[m] == s2[k];
            assert((#[trigger] s1[m]).path@ == p);
        }
    }
    assert forall|p: Seq<Seq<u8>>, size: u64|
        #![trigger has_file_sized(s1, p, size)]
        #![trigger has_file_sized(s2, p, size)]
        has_file_sized(s1, p, size) <==> has_file_sized(s2, p, size) by {
        if has_file_sized(s1, p, size) {
            let k = choose|k: int|
                0 <= k < s1.len() && (#[trigger] s1[k]).path@ == p && s1[k].size == size;
            assert(s1.contains(s1[k]));
            assert(s2.contains(s1[k]));
            let m = choose|m: int| 0 <= m < s2.len() && s2[m] == s1[k];
            assert((#[trigger] s2[m]).path@ == p && s2[m].size == size);
        }
        if has_file_sized(s2, p, size) {
            let k = choose|k: int|
                0 <= k < s2.len() && (#[trigger] s2[k]).path@ == p && s2[k].size == size;
            assert(s2.contains(s2[k]));
            assert(s1.contains(s2[k]));
            let m = choose|m: int| 0 <= m < s1.len() && s1[m] == s2[k];
            assert((#[trigger] s1[m]).path@ == p && s1[m].size == size);
        }
    }
}

/// Directory entries in non-strict order with pairwise distinct paths are in
/// strictly ascending path order.
pub proof fn lemma_dirs_strictly_sorted(s: Seq<Directory>)
    requires
        dirs_sorted_le(s),
        dirs_path_unique(s),
    ensures
        dirs_sorted_lt(s),
{
    assert forall|k: int, m: int| #![trigger s[k], s[m]]
        0 <= k < m < s.len() implies path_lt(s[k].path@, s[m].path@) by {
        assert(path_le(s[k].path@, s[m].path@));
        assert(s[k].path@ != s[m].path@);
    }
}

/// File entries in non-strict order with pairwise distinct paths are in
/// strictly ascending path order.
pub proof fn lemma_files_strictly_sorted(s: Seq<File>)
    requires
        files_sorted_le(s),
        files_path_unique(s),
    ensures
        files_sorted_lt(s),
{
    assert forall|k: int, m: int| #![trigger s[k], s[m]]
        0 <= k < m < s.len() implies path_lt(s[k].path@, s[m].path@) by {
        assert(path_le(s[k].path@, s[m].path@));
        assert(s[k].path@ != s[m].path@);
    }
}

/// Sort directory entries by path, ascending. The result holds exactly the
/// entries given, reordered.
#[verifier::loop_isolation(false)]
pub fn sort_directories(v: Vec<Directory>) -> (r: Vec<Directory>)
    ensures
        r@.to_multiset() == v@.to_multiset(),
        dirs_sorted_le(r@),
{
    let mut rest = v;
    let mut out: Vec<Directory> = Vec::new();
    proof {
        assert(out@.to_multiset().add(rest@.to_multiset()) =~= v@.to_multiset());
    }
    while rest.len() > 0
        invariant
            out@.to_multiset().add(rest@.to_multiset()) == v@.to_multiset(),
            dirs_sorted_le(out@),
            forall|k: int, m: int| #![trigger out@[k], rest@[m]]
                0 <= k < out@.len() && 0 <= m < rest@.len()
                    ==> path_le(out@[k].path@, rest@[m].path@),
        decreases rest@.len(),
    {
        let ghost rest0 = rest@;
        let ghost out0 = out@;
        // Find the position of a minimal remaining entry.
        let mut min: usize = 0;
        let mut t: usize = 1;
        while t < rest.len()
            invariant
                0 <= min < t <= rest@.len(),
                forall|k: int|
                    0 <= k < t ==> path_le(rest@[min as int].path@, (#[trigger] rest@[k]).path@),
            decreases rest@.len() - t,
        {
            let c = rest[t].path.cmp(&rest[min].path);
            proof {
                lemma_path_lt_trichotomy(rest@[t as int].path@, rest@[min as int].path@);
            }
            match c {
                PathOrder::Lt => {
                    proof {
                        assert forall|k: int|
                            0 <= k < t + 1 implies path_le(
                            rest@[t as int].path@,
                            (#[trigger] rest@[k]).path@,
                        ) by {
                            if k < t {
                                lemma_path_lt_le_trans(
                                    rest@[t as int].path@,
                                    rest@[min as int].path@,
                                    rest@[k].path@,
                                );
                            }
                        }
                    }
                    min = t;
                }
                _ => {}
            }
            t += 1;
        }
        let x = rest.remove(min);
        proof {
            // Multiset bookkeeping: moving the minimum from rest to out.
            assert(rest0.remove(min as int).to_multiset() =~= rest0.to_multiset().remove(x));
            assert(rest0.contains(x)) by {
                assert(rest0[min as int] == x);
            }
            assert(rest0.to_multiset().count(x) >= 1);
            assert(out0.push(x).to_multiset().add(rest@.to_multiset()) =~= v@.to_multiset());
            // The minimum is below every remaining entry.
            assert forall|m: int| 0 <= m < rest@.len() implies path_le(
                x.path@,
                (#[trigger] rest@[m]).path@,
            ) by {
                if m < min {
                    assert(rest@[m] == rest0[m]);
                } else {
                    assert(rest@[m] == rest0[m + 1]);
                }
            }
            // Pushing the minimum keeps the output sorted and keeps the
            // output below everything that remains.
            assert forall|k: int, m: int| #![trigger out0.push(x)[k], out0.push(x)[m]]
                0 <= k < m < out0.push(x).len() implies path_le(
                out0.push(x)[k].path@,
                out0.push(x)[m].path@,
            ) by {
                if m < out0.len() {
                    assert(out0.push(x)[k] == out0[k]);
                    assert(out0.push(x)[m] == out0[m]);
                } else {
                    assert(out0.push(x)[k] == out0[k]);
                    assert(out0.push(x)[m] == x);
                    assert(path_le(out0[k].path@, rest0[min as int].path@));
                }
            }
            assert forall|k: int, m: int| #![trigger out0.push(x)[k], rest@[m]]
                0 <= k < out0.push(x).len() && 0 <= m < rest@.len() implies path_le(
                out0.push(x)[k].path@,
                rest@[m].path@,
            ) by {
                if k < out0.len() {
                    assert(out0.push(x)[k] == out0[k]);
                    if m < min {
                        assert(rest@[m] == rest0[m]);
                    } else {
                        assert(rest@[m] == rest0[m + 1]);
                    }
                } else {
                    assert(out0.push(x)[k] == x);
                }
            }
        }
        out.push(x);
    }
    out
}

/// Sort file entries by path, ascending. The result holds exactly the
/// entries given, reordered.
#[verifier::loop_isolation(false)]
pub fn sort_files(v: Vec<File>) -> (r: Vec<File>)
    ensures
        r@.to_multiset() == v@.to_multiset(),
        files_sorted_le(r@),
{
    let mut rest = v;
    let mut out: Vec<File> = Vec::new();
    proof {
        assert(out@.to_multiset().add(rest@.to_multiset()) =~= v@.to_multiset());
    }
    while rest.len() > 0
        invariant
            out@.to_multiset().add(rest@.to_multiset()) == v@.to_multiset(),
            files_sorted_le(out@),
            forall|k: int, m: int| #![trigger out@[k], rest@[m]]
                0 <= k < out@.len() && 0 <= m < rest@.len()
                    ==> path_le(out@[k].path@, rest@[m].path@),
        decreases rest@.len(),
    {
        let ghost rest0 = rest@;
        let ghost out0 = out@;
        let mut min: usize = 0;
        let mut t: usize = 1;
        while t < rest.len()
            invariant
                0 <= min < t <= rest@.len(),
                forall|k: int|
                    0 <= k < t ==> path_le(rest@[min as int].path@, (#[trigger] rest@[k]).path@),
            decreases rest@.len() - t,
        {
            let c = rest[t].path.cmp(&rest[min].path);
            proof {
                lemma_path_lt_trichotomy(rest@[t as int].path@, rest@[min as int].path@);
            }
            match c {
                PathOrder::Lt => {
                    proof {
                        assert forall|k: int|
                            0 <= k < t + 1 implies path_le(
                            rest@[t as int].path@,
                            (#[trigger] rest@[k]).path@,
                        ) by {
                            if k < t {
                                lemma_path_lt_le_trans(
                                    rest@[t as int].path@,
                                    rest@[min as int].path@,
                                    rest@[k].path@,
                                );
                            }
                        }
                    }
                    min = t;
                }
                _ => {}
            }
            t += 1;
        }
        let x = rest.remove(min);
        proof {
            assert(rest0.remove(min as int).to_multiset() =~= rest0.to_multiset().remove(x));
            assert(rest0.contains(x)) by {
                assert(rest0[min as int] == x);
            }
            assert(rest0.to_multiset().count(x) >= 1);
            assert(out0.push(x).to_multiset().add(rest@.to_multiset()) =~= v@.to_multiset());
            assert forall|m: int| 0 <= m < rest@.len() implies path_le(
                x.path@,
                (#[trigger] rest@[m]).path@,
            ) by {
                if m < min {
                    assert(rest@[m] == rest0[m]);
                } else {
                    assert(rest@[m] == rest0[m + 1]);
                }
            }
            assert forall|k: int, m: int| #![trigger out0.push(x)[k], out0.push(x)[m]]
                0 <= k < m < out0.push(x).len() implies path_le(
                out0.push(x)[k].path@,
                out0.push(x)[m].path@,
            ) by {
                if m < out0.len() {
                    assert(out0.push(x)[k] == out0[k]);
                    assert(out0.push(x)[m] == out0[m]);
                } else {
                    assert(out0.push(x)[k] == out0[k]);
                    assert(out0.push(x)[m] == x);
                    assert(path_le(out0[k].path@, rest0[min as int].path@));
                }
            }
            assert forall|k: int, m: int| #![trigger out0.push(x)[k], rest@[m]]
                0 <= k < out0.push(x).len() && 0 <= m < rest@.len() implies path_le(
                out0.push(x)[k].path@,
                rest@[m].path@,
            ) by {
                if k < out0.len() {
                    assert(out0.push(x)[k] == out0[k]);
                    if m < min {
                        assert(rest@[m] == rest0[m]);
                    } else {
                        assert(rest@[m] == rest0[m + 1]);
                    }
                } else {
                    assert(out0.push(x)[k] == x);
                }
            }
        }
        out.push(x);
    }
    out
}

/// Linear merge of two directory lists sorted strictly by path.
///
/// The first result holds the paths the source has and the target lacks (the
/// directories to create), the second the paths the target has and the source
/// lacks (the directories to remove), each in strictly ascending path order —
/// so every ancestor precedes its descendants.
#[verifier::loop_isolation(false)]
pub fn diff_directories(src: Vec<Directory>, tgt: Vec<Directory>) -> (r: (
    Vec<EntryPath>,
    Vec<EntryPath>,
))
    requires
        dirs_sorted_lt(src@),
        dirs_sorted_lt(tgt@),
    ensures
        paths_sorted(path_views(r.0@)),
        paths_sorted(path_views(r.1@)),
        forall|p: Seq<Seq<u8>>|
            #[trigger] path_views(r.0@).contains(p) <==> has_dir(src@, p) && !has_dir(tgt@, p),
        forall|p: Seq<Seq<u8>>|
            #[trigger] path_views(r.1@).contains(p) <==> has_dir(tgt@, p) && !has_dir(src@, p),
{
    let ghost src0 = src@;
    let ghost tgt0 = tgt@;
    let mut src = src;
    let mut tgt = tgt;
    let mut creates: Vec<EntryPath> = Vec::new();
    let mut removes: Vec<EntryPath> = Vec::new();
    let ghost mut i: int = 0;
    let ghost mut j: int = 0;
    while src.len() > 0 || tgt.len() > 0
        invariant
            0 <= i <= src0.len(),
            0 <= j <= tgt0.len(),
            src@ == src0.skip(i),
            tgt@ == tgt0.skip(j),
            paths_sorted(path_views(creates@)),
            paths_sorted(path_views(removes@)),
            forall|p: Seq<Seq<u8>>|
                #[trigger] path_views(creates@).contains(p) <==> has_dir_upto(src0, i, p)
                    && !has_dir(tgt0, p),
            forall|p: Seq<Seq<u8>>|
                #[trigger] path_views(removes@).contains(p) <==> has_dir_upto(tgt0, j, p)
                    && !has_dir(src0, p),
            forall|k: int, m: int| #![trigger src0[k], tgt0[m]]
                0 <= k < i && j <= m < tgt0.len() ==> path_lt(src0[k].path@, tgt0[m].path@),
            forall|k: int, m: int| #![trigger tgt0[k], src0[m]]
                0 <= k < j && i <= m < src0.len() ==> path_lt(tgt0[k].path@, src0[m].path@),
        decreases src@.len() + tgt@.len(),
    {
        if src.len() > 0 && tgt.len() > 0 {
            proof {
                assert(src@[0] == src0[i]);
                assert(tgt@[0] == tgt0[j]);
            }
            let c = src[0].path.cmp(&tgt[0].path);
            match c {
                PathOrder::Eq => {
                    let s_entry = src.remove(0);
                    let t_entry = tgt.remove(0);
                    proof {
                        assert(src0.skip(i).remove(0) =~= src0.skip(i + 1));
                        assert(tgt0.skip(j).remove(0) =~= tgt0.skip(j + 1));
                        let ghost p0 = src0[i].path@;
                        assert(has_dir(tgt0, p0)) by {
                            assert((#[trigger] tgt0[j]).path@ == p0);
                        }
                        assert forall|p: Seq<Seq<u8>>|
                            #[trigger] path_views(creates@).contains(p) <==> has_dir_upto(
                            src0,
                            i + 1,
                            p,
                        ) && !has_dir(tgt0, p) by {
                            if p == p0 {
                                assert(!(has_dir_upto(src0, i + 1, p) && !has_dir(tgt0, p)));
                                if path_views(creates@).contains(p) {
                                    assert(has_dir_upto(src0, i, p) && !has_dir(tgt0, p));
                                }
                            } else {
                                assert(has_dir_upto(src0, i + 1, p) <==> has_dir_upto(
                                    src0,
                                    i,
                                    p,
                                )) by {
                                    if has_dir_upto(src0, i + 1, p) {
                                        let k = choose|k: int|
                                            0 <= k < i + 1 && k < src0.len() && (
                                            #[trigger] src0[k]).path@ == p;
                                        assert(k < i);
                                    }
                                }
                            }
                        }
                        assert forall|p: Seq<Seq<u8>>|
                            #[trigger] path_views(removes@).contains(p) <==> has_dir_upto(
                            tgt0,
                            j + 1,
                            p,
                        ) && !has_dir(src0, p) by {
                            if p == p0 {
                                assert(!(has_dir_upto(tgt0, j + 1, p) && !has_dir(src0, p))) by {
                                    assert((#[trigger] src0[i]).path@ == p0);
                                }
                                if path_views(removes@).contains(p) {
                                    assert(has_dir_upto(tgt0, j, p) && !has_dir(src0, p));
                                }
                            } else {
                                assert(has_dir_upto(tgt0, j + 1, p) <==> has_dir_upto(
                                    tgt0,
                                    j,
                                    p,
                                )) by {
                                    if has_dir_upto(tgt0, j + 1, p) {
                                        let k = choose|k: int|
                                            0 <= k < j + 1 && k < tgt0.len() && (
                                            #[trigger] tgt0[k]).path@ == p;
                                        assert(k < j);
                                    }
                                }
                            }
                        }
                        assert forall|m: int| j + 1 <= m < tgt0.len() implies path_lt(
                            (#[trigger] src0[i]).path@,
                            tgt0[m].path@,
                        ) by {
                            assert(path_lt(tgt0[j].path@, tgt0[m].path@));
                        }
                        assert forall|m: int| i + 1 <= m < src0.len() implies path_lt(
                            (#[trigger] tgt0[j]).path@,
                            src0[m].path@,
                        ) by {
                            assert(path_lt(src0[i].path@, src0[m].path@));
                        }
                        i = i + 1;
                        j = j + 1;
                    }
                }
                PathOrder::Lt => {
                    let entry = src.remove(0);
                    proof {
                        assert(entry == src0[i]);
                        assert(src0.skip(i).remove(0) =~= src0.skip(i + 1));
                        let ghost p0 = src0[i].path@;
                        let ghost creates0 = creates@;
                        assert(path_lt(p0, tgt0[j].path@));
                        assert(!has_dir(tgt0, p0)) by {
                            if has_dir(tgt0, p0) {
                                let m = choose|m: int|
                                    0 <= m < tgt0.len() && (#[trigger] tgt0[m]).path@ == p0;
                                if m < j {
                                    assert(path_lt(tgt0[m].path@, src0[i].path@));
                                    lemma_path_lt_trichotomy(tgt0[m].path@, src0[i].path@);
                                } else {
                                    if m == j {
                                        lemma_path_lt_trichotomy(p0, tgt0[j].path@);
                                    } else {
                                        assert(path_lt(tgt0[j].path@, tgt0[m].path@));
                                        lemma_path_lt_trans(p0, tgt0[j].path@, tgt0[m].path@);
                                        lemma_path_lt_trichotomy(p0, tgt0[m].path@);
                                    }
                                }
                            }
                        }
                        assert(path_views(creates0.push(src0[i].path)) =~= path_views(
                            creates0,
                        ).push(p0));
                        lemma_contains_push(path_views(creates0), p0, p0);
                        // The new path is above everything already emitted.
                        assert forall|k: int, m: int|
                            #![trigger path_views(creates0.push(src0[i].path))[k],
                                path_views(creates0.push(src0[i].path))[m]]
                            0 <= k < m < creates0.push(src0[i].path).len() implies path_lt(
                            path_views(creates0.push(src0[i].path))[k],
                            path_views(creates0.push(src0[i].path))[m],
                        ) by {
                            if m < creates0.len() {
                                assert(path_views(creates0.push(src0[i].path))[k] == path_views(
                                    creates0,
                                )[k]);
                                assert(path_views(creates0.push(src0[i].path))[m] == path_views(
                                    creates0,
                                )[m]);
                            } else {
                                let q = path_views(creates0)[k];
                                assert(path_views(creates0).contains(q)) by {
                                    assert(path_views(creates0)[k] == q);
                                }
                                assert(has_dir_upto(src0, i, q));
                                let a = choose|a: int|
                                    0 <= a < i && a < src0.len() && (#[trigger] src0[a]).path@
                                        == q;
                                assert(path_lt(src0[a].path@, src0[i].path@));
                                assert(path_views(creates0.push(src0[i].path))[m] == p0);
                            }
                        }
                        assert forall|p: Seq<Seq<u8>>|
                            #[trigger] path_views(creates0.push(src0[i].path)).contains(p)
                                <==> has_dir_upto(src0, i + 1, p) && !has_dir(tgt0, p) by {
                            lemma_contains_push(path_views(creates0), p0, p);
                            if p == p0 {
                                assert(has_dir_upto(src0, i + 1, p)) by {
                                    assert((#[trigger] src0[i]).path@ == p0);
                                }
                            } else {
                                assert(has_dir_upto(src0, i + 1, p) <==> has_dir_upto(
                                    src0,
                                    i,
                                    p,
                                )) by {
                                    if has_dir_upto(src0, i + 1, p) {
                                        let k = choose|k: int|
                                            0 <= k < i + 1 && k < src0.len() && (
                                            #[trigger] src0[k]).path@ == p;
                                        assert(k < i);
                                    }
                                }
                            }
                        }
                        assert forall|m: int| j <= m < tgt0.len() implies path_lt(
                            (#[trigger] src0[i]).path@,
                            tgt0[m].path@,
                        ) by {
                            if m > j {
                                assert(path_lt(tgt0[j].path@, tgt0[m].path@));
                                lemma_path_lt_trans(p0, tgt0[j].path@, tgt0[m].path@);
                            }
                        }
                        i = i + 1;
                    }
                    creates.push(entry.path);
                }
                PathOrder::Gt => {
                    let entry = tgt.remove(0);
                    proof {
                        assert(entry == tgt0[j]);
                        assert(tgt0.skip(j).remove(0) =~= tgt0.skip(j + 1));
                        let ghost p0 = tgt0[j].path@;
                        let ghost removes0 = removes@;
                        assert(path_lt(p0, src0[i].path@));
                        assert(!has_dir(src0, p0)) by {
                            if has_dir(src0, p0) {
                                let m = choose|m: int|
                                    0 <= m < src0.len() && (#[trigger] src0[m]).path@ == p0;
                                if m < i {
                                    assert(path_lt(src0[m].path@, tgt0[j].path@));
                                    lemma_path_lt_trichotomy(src0[m].path@, tgt0[j].path@);
                                } else {
                                    if m == i {
                                        lemma_path_lt_trichotomy(p0, src0[i].path@);
                                    } else {
                                        assert(path_lt(src0[i].path@, src0[m].path@));
                                        lemma_path_lt_trans(p0, src0[i].path@, src0[m].path@);
                                        lemma_path_lt_trichotomy(p0, src0[m].path@);
                                    }
                                }
                            }
                        }
                        assert(path_views(removes0.push(tgt0[j].path)) =~= path_views(
                            removes0,
                        ).push(p0));
                        lemma_contains_push(path_views(removes0), p0, p0);
                        assert forall|k: int, m: int|
                            #![trigger path_views(removes0.push(tgt0[j].path))[k],
                                path_views(removes0.push(tgt0[j].path))[m]]
                            0 <= k < m < removes0.push(tgt0[j].path).len() implies path_lt(
                            path_views(removes0.push(tgt0[j].path))[k],
                            path_views(removes0.push(tgt0[j].path))[m],
                        ) by {
                            if m < removes0.len() {
                                assert(path_views(removes0.push(tgt0[j].path))[k] == path_views(
                                    removes0,
                                )[k]);
                                assert(path_views(removes0.push(tgt0[j].path))[m] == path_views(
                                    removes0,
                                )[m]);
                            } else {
                                let q = path_views(removes0)[k];
                                assert(path_views(removes0).contains(q)) by {
                                    assert(path_views(removes0)[k] == q);
                                }
                                assert(has_dir_upto(tgt0, j, q));
                                let a = choose|a: int|
                                    0 <= a < j && a < tgt0.len() && (#[trigger] tgt0[a]).path@
                                        == q;
                                assert(path_lt(tgt0[a].path@, tgt0[j].path@));
                                assert(path_views(removes0.push(tgt0[j].path))[m] == p0);
                            }
                        }
                        assert forall|p: Seq<Seq<u8>>|
                            #[trigger] path_views(removes0.push(tgt0[j].path)).contains(p)
                                <==> has_dir_upto(tgt0, j + 1, p) && !has_dir(src0, p) by {
                            lemma_contains_push(path_views(removes0), p0, p);
                            if p == p0 {
                                assert(has_dir_upto(tgt0, j + 1, p)) by {
                                    assert((#[trigger] tgt0[j]).path@ == p0);
                                }
                            } else {
                                assert(has_dir_upto(tgt0, j + 1, p) <==> has_dir_upto(
                                    tgt0,
                                    j,
                                    p,
                                )) by {
                                    if has_dir_upto(tgt0, j + 1, p) {
                                        let k = choose|k: int|
                                            0 <= k < j + 1 && k < tgt0.len() && (
                                            #[trigger] tgt0[k]).path@ == p;
                                        assert(k < j);
                                    }
                                }
                            }
                        }
                        assert forall|m: int| i <= m < src0.len() implies path_lt(
                            (#[trigger] tgt0[j]).path@,
                            src0[m].path@,
                        ) by {
                            if m > i {
                                assert(path_lt(src0[i].path@, src0[m].path@));
                                lemma_path_lt_trans(p0, src0[i].path@, src0[m].path@);
                            }
                        }
                        j = j + 1;
                    }
                    removes.push(entry.path);
                }
            }
        } else if src.len() > 0 {
            // The target side is exhausted: everything left is a create.
            let entry = src.remove(0);
            proof {
                assert(entry == src0[i]);
                assert(src0.skip(i).remove(0) =~= src0.skip(i + 1));
                let ghost p0 = src0[i].path@;
                let ghost creates0 = creates@;
                assert(j == tgt0.len());
                assert(!has_dir(tgt0, p0)) by {
                    if has_dir(tgt0, p0) {
                        let m = choose|m: int|
                            0 <= m < tgt0.len() && (#[trigger] tgt0[m]).path@ == p0;
                        assert(path_lt(tgt0[m].path@, src0[i].path@));
                        lemma_path_lt_trichotomy(tgt0[m].path@, src0[i].path@);
                    }
                }
                assert(path_views(creates0.push(src0[i].path)) =~= path_views(creates0).push(p0));
                assert forall|k: int, m: int|
                    #![trigger path_views(creates0.push(src0[i].path))[k],
                        path_views(creates0.push(src0[i].path))[m]]
                    0 <= k < m < creates0.push(src0[i].path).len() implies path_lt(
                    path_views(creates0.push(src0[i].path))[k],
                    path_views(creates0.push(src0[i].path))[m],
                ) by {
                    if m < creates0.len() {
                        assert(path_views(creates0.push(src0[i].path))[k] == path_views(
                            creates0,
                        )[k]);
                        assert(path_views(creates0.push(src0[i].path))[m] == path_views(
                            creates0,
                        )[m]);
                    } else {
                        let q = path_views(creates0)[k];
                        assert(path_views(creates0).contains(q)) by {
                            assert(path_views(creates0)[k] == q);
                        }
                        assert(has_dir_upto(src0, i, q));
                        let a = choose|a: int|
                            0 <= a < i && a < src0.len() && (#[trigger] src0[a]).path@ == q;
                        assert(path_lt(src0[a].path@, src0[i].path@));
                        assert(path_views(creates0.push(src0[i].path))[m] == p0);
                    }
                }
                assert forall|p: Seq<Seq<u8>>|
                    #[trigger] path_views(creates0.push(src0[i].path)).contains(p)
                        <==> has_dir_upto(src0, i + 1, p) && !has_dir(tgt0, p) by {
                    lemma_contains_push(path_views(creates0), p0, p);
                    if p == p0 {
                        assert(has_dir_upto(src0, i + 1, p)) by {
                            assert((#[trigger] src0[i]).path@ == p0);
                        }
                    } else {
                        assert(has_dir_upto(src0, i + 1, p) <==> has_dir_upto(src0, i, p)) by {
                            if has_dir_upto(src0, i + 1, p) {
                                let k = choose|k: int|
                                    0 <= k < i + 1 && k < src0.len() && (#[trigger] src0[k]).path@
                                        == p;
                                assert(k < i);
                            }
                        }
                    }
                }
                i = i + 1;
            }
            creates.push(entry.path);
        } else {
            // The source side is exhausted: everything left is a remove.
            let entry = tgt.remove(0);
            proof {
                assert(entry == tgt0[j]);
                assert(tgt0.skip(j).remove(0) =~= tgt0.skip(j + 1));
                let ghost p0 = tgt0[j].path@;
                let ghost removes0 = removes@;
                assert(i == src0.len());
                assert(!has_dir(src0, p0)) by {
                    if has_dir(src0, p0) {
                        let m = choose|m: int|
                            0 <= m < src0.len() && (#[trigger] src0[m]).path@ == p0;
                        assert(path_lt(src0[m].path@, tgt0[j].path@));
                        lemma_path_lt_trichotomy(src0[m].path@, tgt0[j].path@);
                    }
                }
                assert(path_views(removes0.push(tgt0[j].path)) =~= path_views(removes0).push(p0));
                assert forall|k: int, m: int|
                    #![trigger path_views(removes0.push(tgt0[j].path))[k],
                        path_views(removes0.push(tgt0[j].path))[m]]
                    0 <= k < m < removes0.push(tgt0[j].path).len() implies path_lt(
                    path_views(removes0.push(tgt0[j].path))[k],
                    path_views(removes0.push(tgt0[j].path))[m],
                ) by {
                    if m < removes0.len() {
                        assert(path_views(removes0.push(tgt0[j].path))[k] == path_views(
                            removes0,
                        )[k]);
                        assert(path_views(removes0.push(tgt0[j].path))[m] == path_views(
                            removes0,
                        )[m]);
                    } else {
                        let q = path_views(removes0)[k];
                        assert(path_views(removes0).contains(q)) by {
                            assert(path_views(removes0)[k] == q);
                        }
                        assert(has_dir_upto(tgt0, j, q));
                        let a = choose|a: int|
                            0 <= a < j && a < tgt0.len() && (#[trigger] tgt0[a]).path@ == q;
                        assert(path_lt(tgt0[a].path@, tgt0[j].path@));
                        assert(path_views(removes0.push(tgt0[j].path))[m] == p0);
                    }
                }
                assert forall|p: Seq<Seq<u8>>|
                    #[trigger] path_views(removes0.push(tgt0[j].path)).contains(p)
                        <==> has_dir_upto(tgt0, j + 1, p) && !has_dir(src0, p) by {
                    lemma_contains_push(path_views(removes0), p0, p);
                    if p == p0 {
                        assert(has_dir_upto(tgt0, j + 1, p)) by {
                            assert((#[trigger] tgt0[j]).path@ == p0);
                        }
                    } else {
                        assert(has_dir_upto(tgt0, j + 1, p) <==> has_dir_upto(tgt0, j, p)) by {
                            if has_dir_upto(tgt0, j + 1, p) {
                                let k = choose|k: int|
                                    0 <= k < j + 1 && k < tgt0.len() && (#[trigger] tgt0[k]).path@
                                        == p;
                                assert(k < j);
                            }
                        }
                    }
                }
                j = j + 1;
            }
            removes.push(entry.path);
        }
    }
    proof {
        assert(i == src0.len());
        assert(j == tgt0.len());
    }
    (creates, removes)
}

/// Linear merge of two file lists sorted strictly by path.
///
/// The first result holds the paths that must be copied from the source to
/// the target (present only in the source, or present in both with different
/// sizes — equal sizes mean equal files, nothing else is compared), the
/// second the paths the target has and the source lacks (the files to
/// remove), each in strictly ascending path order.
#[verifier::loop_isolation(false)]
pub fn diff_files(src: Vec<File>, tgt: Vec<File>) -> (r: (Vec<EntryPath>, Vec<EntryPath>))
    requires
        files_sorted_lt(src@),
        files_sorted_lt(tgt@),
    ensures
        paths_sorted(path_views(r.0@)),
        paths_sorted(path_views(r.1@)),
        forall|p: Seq<Seq<u8>>|
            #[trigger] path_views(r.0@).contains(p) <==> needs_copy(src@, tgt@, p),
        forall|p: Seq<Seq<u8>>|
            #[trigger] path_views(r.1@).contains(p) <==> has_file(tgt@, p) && !has_file(src@, p),
{
    let ghost src0 = src@;
    let ghost tgt0 = tgt@;
    let mut src = src;
    let mut tgt = tgt;
    let mut copies: Vec<EntryPath> = Vec::new();
    let mut removes: Vec<EntryPath> = Vec::new();
    let ghost mut i: int = 0;
    let ghost mut j: int = 0;
    while src.len() > 0 || tgt.len() > 0
        invariant
            0 <= i <= src0.len(),
            0 <= j <= tgt0.len(),
            src@ == src0.skip(i),
            tgt@ == tgt0.skip(j),
            paths_sorted(path_views(copies@)),
            paths_sorted(path_views(removes@)),
            forall|p: Seq<Seq<u8>>|
                #[trigger] path_views(copies@).contains(p) <==> needs_copy_upto(src0, i, tgt0, p),
            forall|p: Seq<Seq<u8>>|
                #[trigger] path_views(removes@).contains(p) <==> has_file_upto(tgt0, j, p)
                    && !has_file(src0, p),
            forall|k: int, m: int| #![trigger src0[k], tgt0[m]]
                0 <= k < i && j <= m < tgt0.len() ==> path_lt(src0[k].path@, tgt0[m].path@),
            forall|k: int, m: int| #![trigger tgt0[k], src0[m]]
                0 <= k < j && i <= m < src0.len() ==> path_lt(tgt0[k].path@, src0[m].path@),
        decreases src@.len() + tgt@.len(),
    {
        if src.len() > 0 && tgt.len() > 0 {
            proof {
                assert(src@[0] == src0[i]);
                assert(tgt@[0] == tgt0[j]);
            }
            let c = src[0].path.cmp(&tgt[0].path);
            match c {
                PathOrder::Eq => {
                    let s_entry = src.remove(0);
                    let t_entry = tgt.remove(0);
                    proof {
                        assert(s_entry == src0[i]);
                        assert(t_entry == tgt0[j]);
                        assert(src0.skip(i).remove(0) =~= src0.skip(i + 1));
                        assert(tgt0.skip(j).remove(0) =~= tgt0.skip(j + 1));
                    }
                    let ghost p0 = src0[i].path@;
                    let ghost copies0 = copies@;
                    proof {
                        // The matched path occurs nowhere else on either side.
                        assert forall|k: int|
                            0 <= k < src0.len() && k != i implies (#[trigger] src0[k]).path@
                                != p0 by {
                            if k < i {
                                lemma_path_lt_trichotomy(src0[k].path@, src0[i].path@);
                            } else {
                                lemma_path_lt_trichotomy(src0[i].path@, src0[k].path@);
                            }
                        }
                        assert forall|m: int|
                            0 <= m < tgt0.len() && m != j implies (#[trigger] tgt0[m]).path@
                                != p0 by {
                            if m < j {
                                assert(path_lt(tgt0[m].path@, src0[i].path@));
                                lemma_path_lt_trichotomy(tgt0[m].path@, src0[i].path@);
                            } else {
                                assert(path_lt(tgt0[j].path@, tgt0[m].path@));
                                lemma_path_lt_trichotomy(tgt0[j].path@, tgt0[m].path@);
                            }
                        }
                        // No earlier source entry carries this path, so the
                        // copies list cannot hold it yet.
                        assert(!has_file_upto(src0, i, p0));
                        // Frontier updates.
                        assert forall|m: int| j + 1 <= m < tgt0.len() implies path_lt(
                            (#[trigger] src0[i]).path@,
                            tgt0[m].path@,
                        ) by {
                            assert(path_lt(tgt0[j].path@, tgt0[m].path@));
                        }
                        assert forall|m: int| i + 1 <= m < src0.len() implies path_lt(
                            (#[trigger] tgt0[j]).path@,
                            src0[m].path@,
                        ) by {
                            assert(path_lt(src0[i].path@, src0[m].path@));
                        }
                    }
                    if s_entry.size != t_entry.size {
                        proof {
                            assert(!same_size_upto(src0, i + 1, tgt0, p0)) by {
                                if same_size_upto(src0, i + 1, tgt0, p0) {
                                    let size = choose|size: u64|
                                        has_file_sized_upto(src0, i + 1, p0, size)
                                            && has_file_sized(tgt0, p0, size);
                                    let k = choose|k: int|
                                        0 <= k < i + 1 && k < src0.len() && (
                                        #[trigger] src0[k]).path@ == p0 && src0[k].size == size;
                                    assert(k == i);
                                    let m = choose|m: int|
                                        0 <= m < tgt0.len() && (#[trigger] tgt0[m]).path@ == p0
                                            && tgt0[m].size == size;
                                    assert(m == j);
                                }
                            }
                            assert(needs_copy_upto(src0, i + 1, tgt0, p0)) by {
                                assert((#[trigger] src0[i]).path@ == p0);
                            }
                            assert(path_views(copies0.push(src0[i].path)) =~= path_views(
                                copies0,
                            ).push(p0));
                            assert forall|k: int, m: int|
                                #![trigger path_views(copies0.push(src0[i].path))[k],
                                    path_views(copies0.push(src0[i].path))[m]]
                                0 <= k < m < copies0.push(src0[i].path).len() implies path_lt(
                                path_views(copies0.push(src0[i].path))[k],
                                path_views(copies0.push(src0[i].path))[m],
                            ) by {
                                if m < copies0.len() {
                                    assert(path_views(copies0.push(src0[i].path))[k]
                                        == path_views(copies0)[k]);
                                    assert(path_views(copies0.push(src0[i].path))[m]
                                        == path_views(copies0)[m]);
                                } else {
                                    let q = path_views(copies0)[k];
                                    assert(path_views(copies0).contains(q)) by {
                                        assert(path_views(copies0)[k] == q);
                                    }
                                    assert(has_file_upto(src0, i, q));
                                    let a = choose|a: int|
                                        0 <= a < i && a < src0.len() && (
                                        #[trigger] src0[a]).path@ == q;
                                    assert(path_lt(src0[a].path@, src0[i].path@));
                                    assert(path_views(copies0.push(src0[i].path))[m] == p0);
                                }
                            }
                            assert forall|p: Seq<Seq<u8>>|
                                #[trigger] path_views(copies0.push(src0[i].path)).contains(p)
                                    <==> needs_copy_upto(src0, i + 1, tgt0, p) by {
                                lemma_contains_push(path_views(copies0), p0, p);
                                if p != p0 {
                                    assert(has_file_upto(src0, i + 1, p) <==> has_file_upto(
                                        src0,
                                        i,
                                        p,
                                    )) by {
                                        if has_file_upto(src0, i + 1, p) {
                                            let k = choose|k: int|
                                                0 <= k < i + 1 && k < src0.len() && (
                                                #[trigger] src0[k]).path@ == p;
                                            assert(k < i);
                                        }
                                    }
                                    assert(same_size_upto(src0, i + 1, tgt0, p)
                                        <==> same_size_upto(src0, i, tgt0, p)) by {
                                        if same_size_upto(src0, i + 1, tgt0, p) {
                                            let size = choose|size: u64|
                                                has_file_sized_upto(src0, i + 1, p, size)
                                                    && has_file_sized(tgt0, p, size);
                                            let k = choose|k: int|
                                                0 <= k < i + 1 && k < src0.len() && (
                                                #[trigger] src0[k]).path@ == p && src0[k].size
                                                    == size;
                                            assert(k < i);
                                            assert(has_file_sized_upto(src0, i, p, size));
                                        }
                                        if same_size_upto(src0, i, tgt0, p) {
                                            let size = choose|size: u64|
                                                has_file_sized_upto(src0, i, p, size)
                                                    && has_file_sized(tgt0, p, size);
                                            assert(has_file_sized_upto(src0, i + 1, p, size));
                                        }
                                    }
                                }
                            }
                            i = i + 1;
                            j = j + 1;
                        }
                        copies.push(s_entry.path);
                    } else {
                        proof {
                            assert(same_size_upto(src0, i + 1, tgt0, p0)) by {
                                assert((#[trigger] src0[i]).path@ == p0 && src0[i].size
                                    == src0[i].size);
                                assert((#[trigger] tgt0[j]).path@ == p0 && tgt0[j].size
                                    == src0[i].size);
                                assert(has_file_sized_upto(src0, i + 1, p0, src0[i].size));
                                assert(has_file_sized(tgt0, p0, src0[i].size));
                            }
                            assert forall|p: Seq<Seq<u8>>|
                                #[trigger] path_views(copies@).contains(p) <==> needs_copy_upto(
                                src0,
                                i + 1,
                                tgt0,
                                p,
                            ) by {
                                if p == p0 {
                                    assert(!needs_copy_upto(src0, i + 1, tgt0, p));
                                    if path_views(copies@).contains(p) {
                                        assert(needs_copy_upto(src0, i, tgt0, p));
                                    }
                                } else {
                                    assert(has_file_upto(src0, i + 1, p) <==> has_file_upto(
                                        src0,
                                        i,
                                        p,
                                    )) by {
                                        if has_file_upto(src0, i + 1, p) {
                                            let k = choose|k: int|
                                                0 <= k < i + 1 && k < src0.len() && (
                                                #[trigger] src0[k]).path@ == p;
                                            assert(k < i);
                                        }
                                    }
                                    assert(same_size_upto(src0, i + 1, tgt0, p)
                                        <==> same_size_upto(src0, i, tgt0, p)) by {
                                        if same_size_upto(src0, i + 1, tgt0, p) {
                                            let size = choose|size: u64|
                                                has_file_sized_upto(src0, i + 1, p, size)
                                                    && has_file_sized(tgt0, p, size);
                                            let k = choose|k: int|
                                                0 <= k < i + 1 && k < src0.len() && (
                                                #[trigger] src0[k]).path@ == p && src0[k].size
                                                    == size;
                                            assert(k < i);
                                            assert(has_file_sized_upto(src0, i, p, size));
                                        }
                                        if same_size_upto(src0, i, tgt0, p) {
                                            let size = choose|size: u64|
                                                has_file_sized_upto(src0, i, p, size)
                                                    && has_file_sized(tgt0, p, size);
                                            assert(has_file_sized_upto(src0, i + 1, p, size));
                                        }
                                    }
                                }
                            }
                            i = i + 1;
                            j = j + 1;
                        }
                    }
                    proof {
                        // Either way the removes list is unaffected.
                        assert forall|p: Seq<Seq<u8>>|
                            #[trigger] path_views(removes@).contains(p) <==> has_file_upto(
                            tgt0,
                            j,
                            p,
                        ) && !has_file(src0, p) by {
                            if p == p0 {
                                assert(has_file(src0, p)) by {
                                    assert((#[trigger] src0[i - 1]).path@ == p0);
                                }
                                if path_views(removes@).contains(p) {
                                    assert(has_file_upto(tgt0, j - 1, p) && !has_file(src0, p));
                                }
                            } else {
                                assert(has_file_upto(tgt0, j, p) <==> has_file_upto(
                                    tgt0,
                                    j - 1,
                                    p,
                                )) by {
                                    if has_file_upto(tgt0, j, p) {
                                        let k = choose|k: int|
                                            0 <= k < j && k < tgt0.len() && (
                                            #[trigger] tgt0[k]).path@ == p;
                                        assert(k < j - 1);
                                    }
                                }
                            }
                        }
                    }
                }
                PathOrder::Lt => {
                    let entry = src.remove(0);
                    proof {
                        assert(entry == src0[i]);
                        assert(src0.skip(i).remove(0) =~= src0.skip(i + 1));
                        let ghost p0 = src0[i].path@;
                        let ghost copies0 = copies@;
                        assert(path_lt(p0, tgt0[j].path@));
                        assert(!has_file(tgt0, p0)) by {
                            if has_file(tgt0, p0) {
                                let m = choose|m: int|
                                    0 <= m < tgt0.len() && (#[trigger] tgt0[m]).path@ == p0;
                                if m < j {
                                    assert(path_lt(tgt0[m].path@, src0[i].path@));
                                    lemma_path_lt_trichotomy(tgt0[m].path@, src0[i].path@);
                                } else {
                                    if m == j {
                                        lemma_path_lt_trichotomy(p0, tgt0[j].path@);
                                    } else {
                                        assert(path_lt(tgt0[j].path@, tgt0[m].path@));
                                        lemma_path_lt_trans(p0, tgt0[j].path@, tgt0[m].path@);
                                        lemma_path_lt_trichotomy(p0, tgt0[m].path@);
                                    }
                                }
                            }
                        }
                        assert(!same_size_upto(src0, i + 1, tgt0, p0)) by {
                            if same_size_upto(src0, i + 1, tgt0, p0) {
                                let size = choose|size: u64|
                                    has_file_sized_upto(src0, i + 1, p0, size) && has_file_sized(
                                        tgt0,
                                        p0,
                                        size,
                                    );
                                let m = choose|m: int|
                                    0 <= m < tgt0.len() && (#[trigger] tgt0[m]).path@ == p0
                                        && tgt0[m].size == size;
                            }
                        }
                        assert(needs_copy_upto(src0, i + 1, tgt0, p0)) by {
                            assert((#[trigger] src0[i]).path@ == p0);
                        }
                        assert(path_views(copies0.push(src0[i].path)) =~= path_views(
                            copies0,
                        ).push(p0));
                        assert forall|k: int, m: int|
                            #![trigger path_views(copies0.push(src0[i].path))[k],
                                path_views(copies0.push(src0[i].path))[m]]
                            0 <= k < m < copies0.push(src0[i].path).len() implies path_lt(
                            path_views(copies0.push(src0[i].path))[k],
                            path_views(copies0.push(src0[i].path))[m],
                        ) by {
                            if m < copies0.len() {
                                assert(path_views(copies0.push(src0[i].path))[k] == path_views(
                                    copies0,
                                )[k]);
                                assert(path_views(copies0.push(src0[i].path))[m] == path_views(
                                    copies0,
                                )[m]);
                            } else {
                                let q = path_views(copies0)[k];
                                assert(path_views(copies0).contains(q)) by {
                                    assert(path_views(copies0)[k] == q);
                                }
                                assert(has_file_upto(src0, i, q));
                                let a = choose|a: int|
                                    0 <= a < i && a < src0.len() && (#[trigger] src0[a]).path@
                                        == q;
                                assert(path_lt(src0[a].path@, src0[i].path@));
                                assert(path_views(copies0.push(src0[i].path))[m] == p0);
                            }
                        }
                        assert forall|p: Seq<Seq<u8>>|
                            #[trigger] path_views(copies0.push(src0[i].path)).contains(p)
                                <==> needs_copy_upto(src0, i + 1, tgt0, p) by {
                            lemma_contains_push(path_views(copies0), p0, p);
                            if p != p0 {
                                assert(has_file_upto(src0, i + 1, p) <==> has_file_upto(
                                    src0,
                                    i,
                                    p,
                                )) by {
                                    if has_file_upto(src0, i + 1, p) {
                                        let k = choose|k: int|
                                            0 <= k < i + 1 && k < src0.len() && (
                                            #[trigger] src0[k]).path@ == p;
                                        assert(k < i);
                                    }
                                }
                                assert(same_size_upto(src0, i + 1, tgt0, p) <==> same_size_upto(
                                    src0,
                                    i,
                                    tgt0,
                                    p,
                                )) by {
                                    if same_size_upto(src0, i + 1, tgt0, p) {
                                        let size = choose|size: u64|
                                            has_file_sized_upto(src0, i + 1, p, size)
                                                && has_file_sized(tgt0, p, size);
                                        let k = choose|k: int|
                                            0 <= k < i + 1 && k < src0.len() && (
                                            #[trigger] src0[k]).path@ == p && src0[k].size
                                                == size;
                                        assert(k < i);
                                        assert(has_file_sized_upto(src0, i, p, size));
                                    }
                                    if same_size_upto(src0, i, tgt0, p) {
                                        let size = choose|size: u64|
                                            has_file_sized_upto(src0, i, p, size)
                                                && has_file_sized(tgt0, p, size);
                                        assert(has_file_sized_upto(src0, i + 1, p, size));
                                    }
                                }
                            }
                        }
                        assert forall|m: int| j <= m < tgt0.len() implies path_lt(
                            (#[trigger] src0[i]).path@,
                            tgt0[m].path@,
                        ) by {
                            if m > j {
                                assert(path_lt(tgt0[j].path@, tgt0[m].path@));
                                lemma_path_lt_trans(p0, tgt0[j].path@, tgt0[m].path@);
                            }
                        }
                        i = i + 1;
                    }
                    copies.push(entry.path);
                }
                PathOrder::Gt => {
                    let entry = tgt.remove(0);
                    proof {
                        assert(entry == tgt0[j]);
                        assert(tgt0.skip(j).remove(0) =~= tgt0.skip(j + 1));
                        let ghost p0 = tgt0[j].path@;
                        let ghost removes0 = removes@;
                        assert(path_lt(p0, src0[i].path@));
                        assert(!has_file(src0, p0)) by {
                            if has_file(src0, p0) {
                                let m = choose|m: int|
                                    0 <= m < src0.len() && (#[trigger] src0[m]).path@ == p0;
                                if m < i {
                                    assert(path_lt(src0[m].path@, tgt0[j].path@));
                                    lemma_path_lt_trichotomy(src0[m].path@, tgt0[j].path@);
                                } else {
                                    if m == i {
                                        lemma_path_lt_trichotomy(p0, src0[i].path@);
                                    } else {
                                        assert(path_lt(src0[i].path@, src0[m].path@));
                                        lemma_path_lt_trans(p0, src0[i].path@, src0[m].path@);
                                        lemma_path_lt_trichotomy(p0, src0[m].path@);
                                    }
                                }
                            }
                        }
                        assert(path_views(removes0.push(tgt0[j].path)) =~= path_views(
                            removes0,
                        ).push(p0));
                        assert forall|k: int, m: int|
                            #![trigger path_views(removes0.push(tgt0[j].path))[k],
                                path_views(removes0.push(tgt0[j].path))[m]]
                            0 <= k < m < removes0.push(tgt0[j].path).len() implies path_lt(
                            path_views(removes0.push(tgt0[j].path))[k],
                            path_views(removes0.push(tgt0[j].path))[m],
                        ) by {
                            if m < removes0.len() {
                                assert(path_views(removes0.push(tgt0[j].path))[k] == path_views(
                                    removes0,
                                )[k]);
                                assert(path_views(removes0.push(tgt0[j].path))[m] == path_views(
                                    removes0,
                                )[m]);
                            } else {
                                let q = path_views(removes0)[k];
                                assert(path_views(removes0).contains(q)) by {
                                    assert(path_views(removes0)[k] == q);
                                }
                                assert(has_file_upto(tgt0, j, q));
                                let a = choose|a: int|
                                    0 <= a < j && a < tgt0.len() && (#[trigger] tgt0[a]).path@
                                        == q;
                                assert(path_lt(tgt0[a].path@, tgt0[j].path@));
                                assert(path_views(removes0.push(tgt0[j].path))[m] == p0);
                            }
                        }
                        assert forall|p: Seq<Seq<u8>>|
                            #[trigger] path_views(removes0.push(tgt0[j].path)).contains(p)
                                <==> has_file_upto(tgt0, j + 1, p) && !has_file(src0, p) by {
                            lemma_contains_push(path_views(removes0), p0, p);
                            if p == p0 {
                                assert(has_file_upto(tgt0, j + 1, p)) by {
                                    assert((#[trigger] tgt0[j]).path@ == p0);
                                }
                            } else {
                                assert(has_file_upto(tgt0, j + 1, p) <==> has_file_upto(
                                    tgt0,
                                    j,
                                    p,
                                )) by {
                                    if has_file_upto(tgt0, j + 1, p) {
                                        let k = choose|k: int|
                                            0 <= k < j + 1 && k < tgt0.len() && (
                                            #[trigger] tgt0[k]).path@ == p;
                                        assert(k < j);
                                    }
                                }
                            }
                        }
                        assert forall|m: int| i <= m < src0.len() implies path_lt(
                            (#[trigger] tgt0[j]).path@,
                            src0[m].path@,
                        ) by {
                            if m > i {
                                assert(path_lt(src0[i].path@, src0[m].path@));
                                lemma_path_lt_trans(p0, src0[i].path@, src0[m].path@);
                            }
                        }
                        j = j + 1;
                    }
                    removes.push(entry.path);
                }
            }
        } else if src.len() > 0 {
            // The target side is exhausted: everything left must be copied.
            let entry = src.remove(0);
            proof {
                assert(entry == src0[i]);
                assert(src0.skip(i).remove(0) =~= src0.skip(i + 1));
                let ghost p0 = src0[i].path@;
                let ghost copies0 = copies@;
                assert(j == tgt0.len());
                assert(!has_file(tgt0, p0)) by {
                    if has_file(tgt0, p0) {
                        let m = choose|m: int|
                            0 <= m < tgt0.len() && (#[trigger] tgt0[m]).path@ == p0;
                        assert(path_lt(tgt0[m].path@, src0[i].path@));
                        lemma_path_lt_trichotomy(tgt0[m].path@, src0[i].path@);
                    }
                }
                assert(!same_size_upto(src0, i + 1, tgt0, p0)) by {
                    if same_size_upto(src0, i + 1, tgt0, p0) {
                        let size = choose|size: u64|
                            has_file_sized_upto(src0, i + 1, p0, size) && has_file_sized(
                                tgt0,
                                p0,
                                size,
                            );
                        let m = choose|m: int|
                            0 <= m < tgt0.len() && (#[trigger] tgt0[m]).path@ == p0 && tgt0[m].size
                                == size;
                    }
                }
                assert(needs_copy_upto(src0, i + 1, tgt0, p0)) by {
                    assert((#[trigger] src0[i]).path@ == p0);
                }
                assert(path_views(copies0.push(src0[i].path)) =~= path_views(copies0).push(p0));
                assert forall|k: int, m: int|
                    #![trigger path_views(copies0.push(src0[i].path))[k],
                        path_views(copies0.push(src0[i].path))[m]]
                    0 <= k < m < copies0.push(src0[i].path).len() implies path_lt(
                    path_views(copies0.push(src0[i].path))[k],
                    path_views(copies0.push(src0[i].path))[m],
                ) by {
                    if m < copies0.len() {
                        assert(path_views(copies0.push(src0[i].path))[k] == path_views(
                            copies0,
                        )[k]);
                        assert(path_views(copies0.push(src0[i].path))[m] == path_views(
                            copies0,
                        )[m]);
                    } else {
                        let q = path_views(copies0)[k];
                        assert(path_views(copies0).contains(q)) by {
                            assert(path_views(copies0)[k] == q);
                        }
                        assert(has_file_upto(src0, i, q));
                        let a = choose|a: int|
                            0 <= a < i && a < src0.len() && (#[trigger] src0[a]).path@ == q;
                        assert(path_lt(src0[a].path@, src0[i].path@));
                        assert(path_views(copies0.push(src0[i].path))[m] == p0);
                    }
                }
                assert forall|p: Seq<Seq<u8>>|
                    #[trigger] path_views(copies0.push(src0[i].path)).contains(p)
                        <==> needs_copy_upto(src0, i + 1, tgt0, p) by {
                    lemma_contains_push(path_views(copies0), p0, p);
                    if p != p0 {
                        assert(has_file_upto(src0, i + 1, p) <==> has_file_upto(src0, i, p)) by {
                            if has_file_upto(src0, i + 1, p) {
                                let k = choose|k: int|
                                    0 <= k < i + 1 && k < src0.len() && (#[trigger] src0[k]).path@
                                        == p;
                                assert(k < i);
                            }
                        }
                        assert(same_size_upto(src0, i + 1, tgt0, p) <==> same_size_upto(
                            src0,
                            i,
                            tgt0,
                            p,
                        )) by {
                            if same_size_upto(src0, i + 1, tgt0, p) {
                                let size = choose|size: u64|
                                    has_file_sized_upto(src0, i + 1, p, size) && has_file_sized(
                                        tgt0,
                                        p,
                                        size,
                                    );
                                let k = choose|k: int|
                                    0 <= k < i + 1 && k < src0.len() && (#[trigger] src0[k]).path@
                                        == p && src0[k].size == size;
                                assert(k < i);
                                assert(has_file_sized_upto(src0, i, p, size));
                            }
                            if same_size_upto(src0, i, tgt0, p) {
                                let size = choose|size: u64|
                                    has_file_sized_upto(src0, i, p, size) && has_file_sized(
                                        tgt0,
                                        p,
                                        size,
                                    );
                                assert(has_file_sized_upto(src0, i + 1, p, size));
                            }
                        }
                    }
                }
                i = i + 1;
            }
            copies.push(entry.path);
        } else {
            // The source side is exhausted: everything left is a remove.
            let entry = tgt.remove(0);
            proof {
                assert(entry == tgt0[j]);
                assert(tgt0.skip(j).remove(0) =~= tgt0.skip(j + 1));
                let ghost p0 = tgt0[j].path@;
                let ghost removes0 = removes@;
                assert(i == src0.len());
                assert(!has_file(src0, p0)) by {
                    if has_file(src0, p0) {
                        let m = choose|m: int|
                            0 <= m < src0.len() && (#[trigger] src0[m]).path@ == p0;
                        assert(path_lt(src0[m].path@, tgt0[j].path@));
                        lemma_path_lt_trichotomy(src0[m].path@, tgt0[j].path@);
                    }
                }
                assert(path_views(removes0.push(tgt0[j].path)) =~= path_views(removes0).push(p0));
                assert forall|k: int, m: int|
                    #![trigger path_views(removes0.push(tgt0[j].path))[k],
                        path_views(removes0.push(tgt0[j].path))[m]]
                    0 <= k < m < removes0.push(tgt0[j].path).len() implies path_lt(
                    path_views(removes0.push(tgt0[j].path))[k],
                    path_views(removes0.push(tgt0[j].path))[m],
                ) by {
                    if m < removes0.len() {
                        assert(path_views(removes0.push(tgt0[j].path))[k] == path_views(
                            removes0,
                        )[k]);
                        assert(path_views(removes0.push(tgt0[j].path))[m] == path_views(
                            removes0,
                        )[m]);
                    } else {
                        let q = path_views(removes0)[k];
                        assert(path_views(removes0).contains(q)) by {
                            assert(path_views(removes0)[k] == q);
                        }
                        assert(has_file_upto(tgt0, j, q));
                        let a = choose|a: int|
                            0 <= a < j && a < tgt0.len() && (#[trigger] tgt0[a]).path@ == q;
                        assert(path_lt(tgt0[a].path@, tgt0[j].path@));
                        assert(path_views(removes0.push(tgt0[j].path))[m] == p0);
                    }
                }
                assert forall|p: Seq<Seq<u8>>|
                    #[trigger] path_views(removes0.push(tgt0[j].path)).contains(p)
                        <==> has_file_upto(tgt0, j + 1, p) && !has_file(src0, p) by {
                    lemma_contains_push(path_views(removes0), p0, p);
                    if p == p0 {
                        assert(has_file_upto(tgt0, j + 1, p)) by {
                            assert((#[trigger] tgt0[j]).path@ == p0);
                        }
                    } else {
                        assert(has_file_upto(tgt0, j + 1, p) <==> has_file_upto(tgt0, j, p)) by {
                            if has_file_upto(tgt0, j + 1, p) {
                                let k = choose|k: int|
                                    0 <= k < j + 1 && k < tgt0.len() && (#[trigger] tgt0[k]).path@
                                        == p;
                                assert(k < j);
                            }
                        }
                    }
                }
                j = j + 1;
            }
            removes.push(entry.path);
        }
    }
    proof {
        assert(i == src0.len());
        assert(j == tgt0.len());
    }
    (copies, removes)
}

} // verus!
