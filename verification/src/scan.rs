//! Snapshots of a directory tree.

use vstd::prelude::*;

use crate::fs::{Directory, File};
use crate::path::{path_wf, split_path, valid_path_bytes, EntryPath};
use crate::reconcile::{dirs_path_unique, files_path_unique, has_file};
use crate::text::{
    all_digits, copy_range, digits_value, find_byte, last_pos, lemma_first_pos_char,
    lemma_last_pos_char, rfind_byte, trim_ascii, trimmed,
};

verus! {

/// A snapshot of one directory tree: every directory and every file under a
/// root, with paths relative to that root. The root itself is never listed.
#[derive(Debug, PartialEq, Eq)]
pub struct DirectoryScanList {
    pub directories: Vec<Directory>,
    pub files: Vec<File>,
}

impl DirectoryScanList {
    /// Snapshot invariant: no path occurs twice within a list, and no path
    /// is both a directory and a file.
    pub open spec fn wf(&self) -> bool {
        &&& dirs_path_unique(self.directories@)
        &&& files_path_unique(self.files@)
        &&& forall|k: int|
            0 <= k < self.directories@.len() ==> !has_file(
                self.files@,
                (#[trigger] self.directories@[k]).path@,
            )
    }

    /// Assemble a snapshot from its two entry lists.
    pub fn from_parts(directories: Vec<Directory>, files: Vec<File>) -> (r: DirectoryScanList)
        ensures
            r.directories == directories,
            r.files == files,
    {
        DirectoryScanList { directories, files }
    }

    pub fn directories(&self) -> (r: &Vec<Directory>)
        ensures
            r == &self.directories,
    {
        &self.directories
    }

    pub fn files(&self) -> (r: &Vec<File>)
        ensures
            r == &self.files,
    {
        &self.files
    }

    pub fn into_parts(self) -> (r: (Vec<Directory>, Vec<File>))
        ensures
            r.0 == self.directories,
            r.1 == self.files,
    {
        (self.directories, self.files)
    }
}

// --- The remote listing protocol ---
//
// A remote enumeration answers with one line per entry, of the form
// `<relative-path> <type> <size>` where the type is `f` for a file and `d`
// for a directory. The path may itself contain spaces, so a line is read
// from its right: the size is what follows the last space, the type what
// follows the last space of the rest.

/// The trimmed line with its trailing size field removed, trimmed again.
pub open spec fn listing_head(line: Seq<u8>) -> Seq<u8> {
    let t = trimmed(line);
    trimmed(t.take(last_pos(t, 32)))
}

/// The size field: what follows the last space of the trimmed line.
pub open spec fn listing_size_text(line: Seq<u8>) -> Seq<u8> {
    let t = trimmed(line);
    t.skip(last_pos(t, 32) + 1)
}

/// The type field: what follows the last space of the head, trimmed.
pub open spec fn listing_type_text(line: Seq<u8>) -> Seq<u8> {
    let h = listing_head(line);
    trimmed(h.skip(last_pos(h, 32) + 1))
}

/// The path field: the head up to its last space.
pub open spec fn listing_path_text(line: Seq<u8>) -> Seq<u8> {
    let h = listing_head(line);
    h.take(last_pos(h, 32))
}

pub open spec fn listing_is_file(line: Seq<u8>) -> bool {
    listing_type_text(line) == seq![102u8]
}

pub open spec fn listing_is_dir(line: Seq<u8>) -> bool {
    listing_type_text(line) == seq![100u8]
}

/// A listing line matches the three-field shape: both splits exist, the
/// type is `f` or `d`, a file's size is a decimal number that fits in 64
/// bits and its path is well-formed, and a directory's path is well-formed
/// or empty (the starting point itself, which is not an entry).
pub open spec fn listing_well_formed(line: Seq<u8>) -> bool {
    let t = trimmed(line);
    &&& last_pos(t, 32) >= 0
    &&& last_pos(listing_head(line), 32) >= 0
    &&& (listing_is_file(line) || listing_is_dir(line))
    &&& (listing_is_file(line) ==> all_digits(listing_size_text(line)) && digits_value(
        listing_size_text(line),
    ) <= u64::MAX && valid_path_bytes(listing_path_text(line)))
    &&& (listing_is_dir(line) ==> listing_path_text(line).len() == 0 || valid_path_bytes(
        listing_path_text(line),
    ))
}

/// What one listing line denotes.
#[derive(Debug, PartialEq, Eq)]
pub enum ListingEntry {
    FileEntry(File),
    DirectoryEntry(Directory),
    /// A directory line for the starting point itself: not an entry.
    Ignored,
}

/// Parse one line of a remote listing. Fails exactly on lines that do not
/// match the three-field shape.
pub fn parse_listing_line(line: &Vec<u8>) -> (r: Option<ListingEntry>)
    ensures
        r is Some <==> listing_well_formed(line@),
        match r {
            Some(ListingEntry::FileEntry(f)) => listing_is_file(line@) && f.path@ == split_path(
                listing_path_text(line@),
            ) && f.path.wf() && f.size == digits_value(listing_size_text(line@)),
            Some(ListingEntry::DirectoryEntry(d)) => listing_is_dir(line@) && listing_path_text(
                line@,
            ).len() > 0 && d.path@ == split_path(listing_path_text(line@)) && d.path.wf(),
            Some(ListingEntry::Ignored) => listing_is_dir(line@) && listing_path_text(
                line@,
            ).len() == 0,
            None => true,
        },
{
    let t = trim_ascii(line);
    proof {
        lemma_last_pos_char(t@, 32);
    }
    let sp2 = match rfind_byte(&t, 32) {
        Some(i) => i,
        None => {
            proof {
                assert(last_pos(t@, 32) == -1) by {
                    if last_pos(t@, 32) >= 0 {
                        assert(t@[last_pos(t@, 32)] == 32);
                    }
                }
            }
            return None;
        },
    };
    proof {
        assert(sp2 == last_pos(t@, 32)) by {
            if last_pos(t@, 32) < sp2 {
                assert(t@[sp2 as int] != 32);
            }
            if last_pos(t@, 32) > sp2 {
                assert(t@[last_pos(t@, 32)] != 32);
            }
        }
    }
    let t_len = t.len();
    let size_text = copy_range(&t, sp2 + 1, t_len);
    proof {
        assert(size_text@ =~= listing_size_text(line@));
    }
    let head_raw = copy_range(&t, 0, sp2);
    let head = trim_ascii(&head_raw);
    proof {
        assert(head@ == listing_head(line@));
        lemma_last_pos_char(head@, 32);
    }
    let sp1 = match rfind_byte(&head, 32) {
        Some(i) => i,
        None => {
            proof {
                assert(last_pos(head@, 32) == -1) by {
                    if last_pos(head@, 32) >= 0 {
                        assert(head@[last_pos(head@, 32)] == 32);
                    }
                }
            }
            return None;
        },
    };
    proof {
        assert(sp1 == last_pos(head@, 32)) by {
            if last_pos(head@, 32) < sp1 {
                assert(head@[sp1 as int] != 32);
            }
            if last_pos(head@, 32) > sp1 {
                assert(head@[last_pos(head@, 32)] != 32);
            }
        }
    }
    let head_len = head.len();
    let type_raw = copy_range(&head, sp1 + 1, head_len);
    let type_text = trim_ascii(&type_raw);
    proof {
        assert(type_text@ == listing_type_text(line@));
    }
    let path_text = copy_range(&head, 0, sp1);
    proof {
        assert(path_text@ =~= listing_path_text(line@));
    }
    let is_f = type_text.len() == 1 && type_text[0] == 102;
    let is_d = type_text.len() == 1 && type_text[0] == 100;
    proof {
        if is_f {
            assert(type_text@ =~= seq![102u8]);
        } else {
            assert(type_text@ != seq![102u8]) by {
                if type_text@ == seq![102u8] {
                    assert(type_text@.len() == 1 && type_text@[0] == 102);
                }
            }
        }
        if is_d {
            assert(type_text@ =~= seq![100u8]);
        } else {
            assert(type_text@ != seq![100u8]) by {
                if type_text@ == seq![100u8] {
                    assert(type_text@.len() == 1 && type_text@[0] == 100);
                }
            }
        }
    }
    if is_f {
        let size = match crate::text::parse_u64(&size_text) {
            Some(v) => v,
            None => {
                return None;
            },
        };
        let path = match EntryPath::parse(&path_text) {
            Some(p) => p,
            None => {
                return None;
            },
        };
        Some(ListingEntry::FileEntry(File::new(path, size)))
    } else if is_d {
        if path_text.len() == 0 {
            Some(ListingEntry::Ignored)
        } else {
            let path = match EntryPath::parse(&path_text) {
                Some(p) => p,
                None => {
                    return None;
                },
            };
            Some(ListingEntry::DirectoryEntry(Directory::new(path)))
        }
    } else {
        None
    }
}

/// The path texts of the directory entries a listing declares, in line
/// order, skipping the starting-point line.
pub open spec fn listing_dir_texts(lines: Seq<Seq<u8>>) -> Seq<Seq<u8>>
    decreases lines.len(),
{
    if lines.len() == 0 {
        Seq::empty()
    } else {
        let rest = listing_dir_texts(lines.drop_last());
        let l = lines.last();
        if listing_well_formed(l) && listing_is_dir(l) && listing_path_text(l).len() > 0 {
            rest.push(listing_path_text(l))
        } else {
            rest
        }
    }
}

/// The path texts and sizes of the file entries a listing declares, in line
/// order.
pub open spec fn listing_file_entries(lines: Seq<Seq<u8>>) -> Seq<(Seq<u8>, int)>
    decreases lines.len(),
{
    if lines.len() == 0 {
        Seq::empty()
    } else {
        let rest = listing_file_entries(lines.drop_last());
        let l = lines.last();
        if listing_well_formed(l) && listing_is_file(l) {
            rest.push((listing_path_text(l), digits_value(listing_size_text(l))))
        } else {
            rest
        }
    }
}

impl DirectoryScanList {
    /// Build a snapshot from the text a remote enumeration printed: one
    /// line per entry. Fails, with the index of the offending line, exactly
    /// when some line does not match the three-field shape; earlier lines
    /// are all well-formed then. On success the snapshot holds exactly the
    /// declared entries, in line order.
    #[verifier::loop_isolation(false)]
    #[verifier::rlimit(60)]
    pub fn from_remote_listing(output: &Vec<u8>) -> (r: Result<DirectoryScanList, usize>)
        ensures
            match r {
                Ok(scan) => {
                    let lines = crate::text::split_lines(trimmed(output@));
                    &&& forall|k: int|
                        0 <= k < lines.len() ==> listing_well_formed(#[trigger] lines[k])
                    &&& scan.directories@.len() == listing_dir_texts(lines).len()
                    &&& forall|k: int|
                        0 <= k < listing_dir_texts(lines).len() ==> (
                        #[trigger] scan.directories@[k]).path@ == split_path(
                            listing_dir_texts(lines)[k],
                        ) && path_wf(scan.directories@[k].path@)
                    &&& scan.files@.len() == listing_file_entries(lines).len()
                    &&& forall|k: int|
                        0 <= k < listing_file_entries(lines).len() ==> (
                        #[trigger] scan.files@[k]).path@ == split_path(
                            listing_file_entries(lines)[k].0,
                        ) && path_wf(scan.files@[k].path@) && scan.files@[k].size
                            == listing_file_entries(lines)[k].1
                },
                Err(idx) => {
                    let lines = crate::text::split_lines(trimmed(output@));
                    &&& 0 <= idx < lines.len()
                    &&& !listing_well_formed(lines[idx as int])
                    &&& forall|k: int| 0 <= k < idx ==> listing_well_formed(#[trigger] lines[k])
                },
            },
    {
        let t = trim_ascii(output);
        let ghost all_lines = crate::text::split_lines(t@);
        let mut dirs: Vec<Directory> = Vec::new();
        let mut files: Vec<File> = Vec::new();
        let mut pos: usize = 0;
        let mut count: usize = 0;
        let ghost mut done: Seq<Seq<u8>> = Seq::empty();
        proof {
            assert(t@.skip(0) =~= t@);
            assert(all_lines =~= done + crate::text::split_lines(t@.skip(0)));
        }
        while pos < t.len()
            invariant
                0 <= pos <= t@.len(),
                count == done.len(),
                count <= pos,
                all_lines == done + crate::text::split_lines(t@.skip(pos as int)),
                pos == t@.len() ==> crate::text::split_lines(t@.skip(pos as int)) =~= Seq::<
                    Seq<u8>,
                >::empty(),
                forall|k: int| 0 <= k < done.len() ==> listing_well_formed(#[trigger] done[k]),
                dirs@.len() == listing_dir_texts(done).len(),
                forall|k: int|
                    0 <= k < listing_dir_texts(done).len() ==> (#[trigger] dirs@[k]).path@
                        == split_path(listing_dir_texts(done)[k]) && path_wf(dirs@[k].path@),
                files@.len() == listing_file_entries(done).len(),
                forall|k: int|
                    0 <= k < listing_file_entries(done).len() ==> (#[trigger] files@[k]).path@
                        == split_path(listing_file_entries(done)[k].0) && path_wf(
                        files@[k].path@,
                    ) && files@[k].size == listing_file_entries(done)[k].1,
            decreases t@.len() - pos,
        {
            // Find the end of the current line.
            let mut nl: usize = pos;
            while nl < t.len() && t[nl] != 10
                invariant
                    pos <= nl <= t@.len(),
                    forall|k: int| pos <= k < nl ==> t@[k] != 10,
                decreases t@.len() - nl,
            {
                nl += 1;
            }
            let line = copy_range(&t, pos, nl);
            proof {
                let rest = t@.skip(pos as int);
                crate::text::lemma_first_pos_char(rest, 10);
                let p = crate::text::first_pos(rest, 10);
                if nl < t@.len() {
                    assert(rest[nl - pos] == 10);
                    assert(p == nl - pos) by {
                        if p < nl - pos {
                            assert(rest[p] == t@[pos + p]);
                            assert(t@[pos + p] != 10);
                        }
                        if p > nl - pos {
                            assert(rest[nl - pos] != 10);
                        }
                    }
                    assert(rest.take(p) =~= line@);
                    assert(rest.skip(p + 1) =~= t@.skip(nl + 1));
                    assert(crate::text::split_lines(rest) == seq![line@]
                        + crate::text::split_lines(t@.skip(nl + 1)));
                } else {
                    assert(p == rest.len()) by {
                        if p < rest.len() {
                            assert(rest[p] == t@[pos + p]);
                            assert(t@[pos + p] != 10);
                        }
                    }
                    assert(rest =~= line@);
                    assert(crate::text::split_lines(rest) == seq![line@]);
                    assert(t@.skip(t@.len() as int) =~= Seq::<u8>::empty());
                }
                // The current line is the next line of the whole text.
                assert(all_lines[done.len() as int] == line@) by {
                    assert(crate::text::split_lines(t@.skip(pos as int))[0] == line@);
                }
            }
            let entry = parse_listing_line(&line);
            proof {
                assert(done.push(line@).drop_last() =~= done);
                assert(done.push(line@).last() == line@);
                assert(seq![102u8] != seq![100u8]) by {
                    assert(seq![102u8][0] == 102);
                    assert(seq![100u8][0] == 100);
                }
            }
            match entry {
                None => {
                    proof {
                        assert(0 <= count < all_lines.len());
                        assert(!listing_well_formed(all_lines[count as int]));
                    }
                    return Err(count);
                },
                Some(ListingEntry::FileEntry(f)) => {
                    files.push(f);
                },
                Some(ListingEntry::DirectoryEntry(d)) => {
                    dirs.push(d);
                },
                Some(ListingEntry::Ignored) => {},
            }
            proof {
                done = done.push(line@);
            }
            count += 1;
            if nl < t.len() {
                pos = nl + 1;
            } else {
                pos = nl;
            }
            proof {
                if pos == t@.len() {
                    assert(crate::text::split_lines(t@.skip(pos as int)) =~= Seq::<
                        Seq<u8>,
                    >::empty());
                }
            }
        }
        proof {
            assert(all_lines =~= done);
        }
        Ok(DirectoryScanList { directories: dirs, files })
    }
}

// --- The ignore-filter protocol ---
//
// The ignore tool is asked one path per line and answers one line per path,
// of the form `<source>:<linenum>:<pattern>\t<path>`. An entry is kept when
// the answer carries no pattern or a negation pattern, and entries under the
// version-control metadata directory are always dropped.

/// The header of an answer line: everything before the first tab.
pub open spec fn gitignore_header(line: Seq<u8>) -> Seq<u8> {
    line.take(crate::text::first_pos(line, 9))
}

/// The pattern field: the third colon-separated field of the header.
pub open spec fn gitignore_pattern(line: Seq<u8>) -> Seq<u8> {
    let header = gitignore_header(line);
    let rest1 = header.skip(crate::text::first_pos(header, 58) + 1);
    let rest2 = rest1.skip(crate::text::first_pos(rest1, 58) + 1);
    rest2.take(crate::text::first_pos(rest2, 58))
}

/// The echoed path: the second tab-separated field, trimmed.
pub open spec fn gitignore_path(line: Seq<u8>) -> Seq<u8> {
    let restt = line.skip(crate::text::first_pos(line, 9) + 1);
    trimmed(restt.take(crate::text::first_pos(restt, 9)))
}

/// An answer line has its tab, and a header of at least three
/// colon-separated fields.
pub open spec fn gitignore_well_formed(line: Seq<u8>) -> bool {
    let header = gitignore_header(line);
    let rest1 = header.skip(crate::text::first_pos(header, 58) + 1);
    &&& crate::text::first_pos(line, 9) < line.len()
    &&& crate::text::first_pos(header, 58) < header.len()
    &&& crate::text::first_pos(rest1, 58) < rest1.len()
}

/// The version-control metadata directory, or anything nested under it.
pub open spec fn is_git_meta_path(p: Seq<u8>) -> bool {
    ||| p == seq![46u8, 103u8, 105u8, 116u8]
    ||| (p.len() >= 5 && p.take(5) == seq![46u8, 103u8, 105u8, 116u8, 47u8])
}

/// The keep decision an answer line encodes: kept when the matching pattern
/// is absent or a negation (`!`), and never kept for the metadata
/// directory.
pub open spec fn gitignore_keeps(line: Seq<u8>) -> bool {
    let pattern = gitignore_pattern(line);
    &&& (pattern.len() == 0 || pattern[0] == 33)
    &&& !is_git_meta_path(gitignore_path(line))
}

/// Read one answer line of the ignore tool. Fails exactly on answers that
/// do not match the expected shape; otherwise says whether the queried
/// entry is kept.
pub fn gitignore_line_keeps(line: &Vec<u8>) -> (r: Option<bool>)
    ensures
        r is Some <==> gitignore_well_formed(line@),
        match r {
            Some(keep) => keep == gitignore_keeps(line@),
            None => true,
        },
{
    proof {
        lemma_first_pos_char(line@, 9);
    }
    let tab = match find_byte(line, 9) {
        Some(i) => i,
        None => {
            proof {
                assert(crate::text::first_pos(line@, 9) == line@.len()) by {
                    if crate::text::first_pos(line@, 9) < line@.len() {
                        assert(line@[crate::text::first_pos(line@, 9)] == 9);
                    }
                }
            }
            return None;
        },
    };
    proof {
        assert(tab == crate::text::first_pos(line@, 9)) by {
            if crate::text::first_pos(line@, 9) < tab {
                assert(line@[crate::text::first_pos(line@, 9)] != 9);
            }
            if crate::text::first_pos(line@, 9) > tab {
                assert(line@[tab as int] != 9);
            }
        }
    }
    let header = copy_range(line, 0, tab);
    proof {
        assert(header@ =~= gitignore_header(line@));
        lemma_first_pos_char(header@, 58);
    }
    let c1 = match find_byte(&header, 58) {
        Some(i) => i,
        None => {
            proof {
                assert(crate::text::first_pos(header@, 58) == header@.len()) by {
                    if crate::text::first_pos(header@, 58) < header@.len() {
                        assert(header@[crate::text::first_pos(header@, 58)] == 58);
                    }
                }
            }
            return None;
        },
    };
    proof {
        assert(c1 == crate::text::first_pos(header@, 58)) by {
            if crate::text::first_pos(header@, 58) < c1 {
                assert(header@[crate::text::first_pos(header@, 58)] != 58);
            }
            if crate::text::first_pos(header@, 58) > c1 {
                assert(header@[c1 as int] != 58);
            }
        }
    }
    let header_len = header.len();
    let rest1 = copy_range(&header, c1 + 1, header_len);
    proof {
        assert(rest1@ =~= header@.skip(c1 + 1));
        lemma_first_pos_char(rest1@, 58);
    }
    let c2 = match find_byte(&rest1, 58) {
        Some(i) => i,
        None => {
            proof {
                assert(crate::text::first_pos(rest1@, 58) == rest1@.len()) by {
                    if crate::text::first_pos(rest1@, 58) < rest1@.len() {
                        assert(rest1@[crate::text::first_pos(rest1@, 58)] == 58);
                    }
                }
            }
            return None;
        },
    };
    proof {
        assert(c2 == crate::text::first_pos(rest1@, 58)) by {
            if crate::text::first_pos(rest1@, 58) < c2 {
                assert(rest1@[crate::text::first_pos(rest1@, 58)] != 58);
            }
            if crate::text::first_pos(rest1@, 58) > c2 {
                assert(rest1@[c2 as int] != 58);
            }
        }
    }
    let rest1_len = rest1.len();
    let rest2 = copy_range(&rest1, c2 + 1, rest1_len);
    proof {
        assert(rest2@ =~= rest1@.skip(c2 + 1));
        lemma_first_pos_char(rest2@, 58);
    }
    let c3 = match find_byte(&rest2, 58) {
        Some(i) => i,
        None => rest2.len(),
    };
    proof {
        assert(c3 == crate::text::first_pos(rest2@, 58)) by {
            if c3 < rest2@.len() {
                if crate::text::first_pos(rest2@, 58) < c3 {
                    assert(rest2@[crate::text::first_pos(rest2@, 58)] != 58);
                }
                if crate::text::first_pos(rest2@, 58) > c3 {
                    assert(rest2@[c3 as int] != 58);
                }
            } else {
                if crate::text::first_pos(rest2@, 58) < rest2@.len() {
                    assert(rest2@[crate::text::first_pos(rest2@, 58)] == 58);
                }
            }
        }
    }
    let pattern = copy_range(&rest2, 0, c3);
    proof {
        assert(pattern@ =~= gitignore_pattern(line@));
    }
    // The echoed path: from after the tab to the next tab or the end.
    let line_len = line.len();
    let restt = copy_range(line, tab + 1, line_len);
    proof {
        assert(restt@ =~= line@.skip(tab + 1));
        lemma_first_pos_char(restt@, 9);
    }
    let t2 = match find_byte(&restt, 9) {
        Some(i) => i,
        None => restt.len(),
    };
    proof {
        assert(t2 == crate::text::first_pos(restt@, 9)) by {
            if t2 < restt@.len() {
                if crate::text::first_pos(restt@, 9) < t2 {
                    assert(restt@[crate::text::first_pos(restt@, 9)] != 9);
                }
                if crate::text::first_pos(restt@, 9) > t2 {
                    assert(restt@[t2 as int] != 9);
                }
            } else {
                if crate::text::first_pos(restt@, 9) < restt@.len() {
                    assert(restt@[crate::text::first_pos(restt@, 9)] == 9);
                }
            }
        }
    }
    let path_raw = copy_range(&restt, 0, t2);
    let path = trim_ascii(&path_raw);
    proof {
        assert(path@ == gitignore_path(line@));
    }
    let negated = pattern.len() == 0 || pattern[0] == 33;
    let is_git = (path.len() == 4 && path[0] == 46 && path[1] == 103 && path[2] == 105 && path[3]
        == 116) || (path.len() >= 5 && path[0] == 46 && path[1] == 103 && path[2] == 105 && path[3]
        == 116 && path[4] == 47);
    proof {
        if path@.len() == 4 && path@[0] == 46 && path@[1] == 103 && path@[2] == 105 && path@[3]
            == 116 {
            assert(path@ =~= seq![46u8, 103u8, 105u8, 116u8]);
        } else {
            assert(path@ != seq![46u8, 103u8, 105u8, 116u8]) by {
                if path@ == seq![46u8, 103u8, 105u8, 116u8] {
                    assert(path@.len() == 4 && path@[0] == 46 && path@[1] == 103 && path@[2] == 105
                        && path@[3] == 116);
                }
            }
        }
        if path@.len() >= 5 && path@[0] == 46 && path@[1] == 103 && path@[2] == 105 && path@[3]
            == 116 && path@[4] == 47 {
            assert(path@.take(5) =~= seq![46u8, 103u8, 105u8, 116u8, 47u8]);
        } else if path@.len() >= 5 {
            assert(path@.take(5) != seq![46u8, 103u8, 105u8, 116u8, 47u8]) by {
                if path@.take(5) == seq![46u8, 103u8, 105u8, 116u8, 47u8] {
                    assert(path@[0] == path@.take(5)[0]);
                    assert(path@[1] == path@.take(5)[1]);
                    assert(path@[2] == path@.take(5)[2]);
                    assert(path@[3] == path@.take(5)[3]);
                    assert(path@[4] == path@.take(5)[4]);
                }
            }
        }
    }
    Some(negated && !is_git)
}

/// The directory entries whose flag is set, in order.
pub open spec fn flagged_dirs(s: Seq<Directory>, flags: Seq<bool>) -> Seq<Directory>
    recommends
        s.len() == flags.len(),
    decreases s.len(),
{
    if s.len() == 0 || flags.len() == 0 {
        Seq::empty()
    } else if flags.last() {
        flagged_dirs(s.drop_last(), flags.drop_last()).push(s.last())
    } else {
        flagged_dirs(s.drop_last(), flags.drop_last())
    }
}

/// The file entries whose flag is set, in order.
pub open spec fn flagged_files(s: Seq<File>, flags: Seq<bool>) -> Seq<File>
    recommends
        s.len() == flags.len(),
    decreases s.len(),
{
    if s.len() == 0 || flags.len() == 0 {
        Seq::empty()
    } else if flags.last() {
        flagged_files(s.drop_last(), flags.drop_last()).push(s.last())
    } else {
        flagged_files(s.drop_last(), flags.drop_last())
    }
}

impl DirectoryScanList {
    /// The filtered snapshot: exactly the entries whose flag is set, in
    /// order. The flags report, entry by entry, the keep decision of the
    /// ignore filter.
    #[verifier::loop_isolation(false)]
    pub fn retain_flagged(self, keep_directories: &Vec<bool>, keep_files: &Vec<bool>) -> (r:
        DirectoryScanList)
        requires
            keep_directories@.len() == self.directories@.len(),
            keep_files@.len() == self.files@.len(),
        ensures
            r.directories@ == flagged_dirs(self.directories@, keep_directories@),
            r.files@ == flagged_files(self.files@, keep_files@),
    {
        let (mut ds, mut fs) = self.into_parts();
        let ghost ds0 = ds@;
        let ghost fs0 = fs@;
        let ds_len = ds.len();
        let fs_len = fs.len();
        proof {
            assert(ds_len == ds0.len());
            assert(fs_len == fs0.len());
        }
        let mut out_d: Vec<Directory> = Vec::new();
        let mut k: usize = 0;
        while ds.len() > 0
            invariant
                0 <= k <= ds0.len(),
                ds@ == ds0.skip(k as int),
                out_d@ == flagged_dirs(ds0.take(k as int), keep_directories@.take(k as int)),
            decreases ds@.len(),
        {
            proof {
                assert(ds0.take(k + 1).drop_last() =~= ds0.take(k as int));
                assert(keep_directories@.take(k + 1).drop_last() =~= keep_directories@.take(
                    k as int,
                ));
                assert(ds0.take(k + 1).last() == ds0[k as int]);
                assert(keep_directories@.take(k + 1).last() == keep_directories@[k as int]);
                assert(ds0.skip(k as int).remove(0) =~= ds0.skip(k + 1));
            }
            let d = ds.remove(0);
            proof {
                assert(d == ds0[k as int]);
            }
            if keep_directories[k] {
                out_d.push(d);
            }
            k += 1;
        }
        proof {
            assert(ds0.take(ds0.len() as int) =~= ds0);
            assert(keep_directories@.take(keep_directories@.len() as int) =~= keep_directories@);
        }
        let mut out_f: Vec<File> = Vec::new();
        let mut k: usize = 0;
        while fs.len() > 0
            invariant
                0 <= k <= fs0.len(),
                fs@ == fs0.skip(k as int),
                out_f@ == flagged_files(fs0.take(k as int), keep_files@.take(k as int)),
            decreases fs@.len(),
        {
            proof {
                assert(fs0.take(k + 1).drop_last() =~= fs0.take(k as int));
                assert(keep_files@.take(k + 1).drop_last() =~= keep_files@.take(k as int));
                assert(fs0.take(k + 1).last() == fs0[k as int]);
                assert(keep_files@.take(k + 1).last() == keep_files@[k as int]);
                assert(fs0.skip(k as int).remove(0) =~= fs0.skip(k + 1));
            }
            let f = fs.remove(0);
            proof {
                assert(f == fs0[k as int]);
            }
            if keep_files[k] {
                out_f.push(f);
            }
            k += 1;
        }
        proof {
            assert(fs0.take(fs0.len() as int) =~= fs0);
            assert(keep_files@.take(keep_files@.len() as int) =~= keep_files@);
        }
        DirectoryScanList { directories: out_d, files: out_f }
    }

    /// Decide the snapshot invariant at run time: paths unique within each
    /// list, and no path both a directory and a file. Collaborator output
    /// is checked with this before it is reconciled.
    #[verifier::loop_isolation(false)]
    pub fn check_wf(&self) -> (r: bool)
        ensures
            r == self.wf(),
    {
        let ghost ds = self.directories@;
        let ghost fs = self.files@;
        let mut k: usize = 0;
        while k < self.directories.len()
            invariant
                0 <= k <= ds.len(),
                forall|a: int, b: int| #![trigger ds[a], ds[b]]
                    0 <= a < b < ds.len() && a < k ==> ds[a].path@ != ds[b].path@,
            decreases ds.len() - k,
        {
            let mut m: usize = k + 1;
            while m < self.directories.len()
                invariant
                    0 <= k < m <= ds.len(),
                    forall|b: int| k < b < m ==> ds[k as int].path@ != (#[trigger] ds[b]).path@,
                decreases ds.len() - m,
            {
                let c = self.directories[k].path.cmp(&self.directories[m].path);
                if matches!(c, crate::path::PathOrder::Eq) {
                    proof {
                        assert(!dirs_path_unique(ds)) by {
                            assert(ds[k as int].path@ == ds[m as int].path@);
                        }
                    }
                    return false;
                }
                m += 1;
            }
            k += 1;
        }
        let mut k: usize = 0;
        while k < self.files.len()
            invariant
                0 <= k <= fs.len(),
                forall|a: int, b: int| #![trigger fs[a], fs[b]]
                    0 <= a < b < fs.len() && a < k ==> fs[a].path@ != fs[b].path@,
            decreases fs.len() - k,
        {
            let mut m: usize = k + 1;
            while m < self.files.len()
                invariant
                    0 <= k < m <= fs.len(),
                    forall|b: int| k < b < m ==> fs[k as int].path@ != (#[trigger] fs[b]).path@,
                decreases fs.len() - m,
            {
                let c = self.files[k].path.cmp(&self.files[m].path);
                if matches!(c, crate::path::PathOrder::Eq) {
                    proof {
                        assert(!files_path_unique(fs)) by {
                            assert(fs[k as int].path@ == fs[m as int].path@);
                        }
                    }
                    return false;
                }
                m += 1;
            }
            k += 1;
        }
        let mut k: usize = 0;
        while k < self.directories.len()
            invariant
                0 <= k <= ds.len(),
                forall|a: int| 0 <= a < k ==> !has_file(fs, (#[trigger] ds[a]).path@),
            decreases ds.len() - k,
        {
            let mut m: usize = 0;
            while m < self.files.len()
                invariant
                    0 <= k < ds.len(),
                    0 <= m <= fs.len(),
                    forall|b: int| 0 <= b < m ==> (#[trigger] fs[b]).path@ != ds[k as int].path@,
                decreases fs.len() - m,
            {
                let c = self.directories[k].path.cmp(&self.files[m].path);
                if matches!(c, crate::path::PathOrder::Eq) {
                    proof {
                        assert(has_file(fs, ds[k as int].path@)) by {
                            assert((fs[m as int]).path@ == ds[k as int].path@);
                        }
                    }
                    return false;
                }
                m += 1;
            }
            proof {
                assert(!has_file(fs, ds[k as int].path@)) by {
                    if has_file(fs, ds[k as int].path@) {
                        let b = choose|b: int|
                            0 <= b < fs.len() && (#[trigger] fs[b]).path@ == ds[k as int].path@;
                    }
                }
            }
            k += 1;
        }
        true
    }
}

} // verus!
