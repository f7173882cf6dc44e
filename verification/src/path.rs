//! Relative, slash-normalized paths and their ordering.
//!
//! A path is kept as its sequence of name segments, each segment a byte
//! string. Entries are matched across snapshots by path equality alone, and
//! the reconciler relies on the lexicographic order over segment sequences:
//! a parent directory's path sorts strictly before any of its descendants'
//! paths, because a proper prefix is smaller than any sequence extending it.

use vstd::prelude::*;

verus! {

/// Separator byte between path segments in display form: `/`.
pub const SLASH: u8 = 47;

/// A relative, slash-normalized path: the sequence of its name segments.
#[derive(Debug, PartialEq, Eq)]
pub struct EntryPath {
    pub segments: Vec<Vec<u8>>,
}

impl View for EntryPath {
    type V = Seq<Seq<u8>>;

    open spec fn view(&self) -> Seq<Seq<u8>> {
        Seq::new(self.segments@.len(), |i: int| self.segments@[i]@)
    }
}

/// A single name segment is non-empty and free of the separator byte.
pub open spec fn segment_wf(s: Seq<u8>) -> bool {
    &&& s.len() > 0
    &&& forall|i: int| 0 <= i < s.len() ==> s[i] != SLASH
}

/// A well-formed path has at least one segment (the snapshot root itself is
/// never represented as an entry) and every segment is well-formed.
pub open spec fn path_wf(p: Seq<Seq<u8>>) -> bool {
    &&& p.len() > 0
    &&& forall|i: int| 0 <= i < p.len() ==> segment_wf(#[trigger] p[i])
}

/// Strict byte-lexicographic order on segments.
pub open spec fn bytes_lt(a: Seq<u8>, b: Seq<u8>) -> bool
    decreases a.len(),
{
    if a.len() == 0 {
        b.len() > 0
    } else if b.len() == 0 {
        false
    } else if a[0] != b[0] {
        a[0] < b[0]
    } else {
        bytes_lt(a.drop_first(), b.drop_first())
    }
}

/// Strict lexicographic order on paths, over segment sequences: segments are
/// compared pairwise, and a path that runs out of segments first is smaller.
/// This is the order under which an ancestor precedes all of its descendants.
pub open spec fn path_lt(a: Seq<Seq<u8>>, b: Seq<Seq<u8>>) -> bool
    decreases a.len(),
{
    if a.len() == 0 {
        b.len() > 0
    } else if b.len() == 0 {
        false
    } else if a[0] != b[0] {
        bytes_lt(a[0], b[0])
    } else {
        path_lt(a.drop_first(), b.drop_first())
    }
}

/// Two non-empty sequences with equal heads and equal tails are equal.
proof fn lemma_head_tail_eq<T>(a: Seq<T>, b: Seq<T>)
    requires
        a.len() > 0,
        b.len() > 0,
        a[0] == b[0],
        a.drop_first() == b.drop_first(),
    ensures
        a == b,
{
    assert(a.drop_first().len() == a.len() - 1);
    assert(b.drop_first().len() == b.len() - 1);
    assert(a.len() == b.len());
    assert forall|i: int| 0 <= i < a.len() implies a[i] == b[i] by {
        if i > 0 {
            assert(a[i] == a.drop_first()[i - 1]);
            assert(b[i] == b.drop_first()[i - 1]);
            assert(a.drop_first()[i - 1] == b.drop_first()[i - 1]);
        }
    }
    assert(a =~= b);
}

/// Of two distinct segments one is strictly below the other, and never both.
pub proof fn lemma_bytes_lt_trichotomy(a: Seq<u8>, b: Seq<u8>)
    ensures
        bytes_lt(a, b) || bytes_lt(b, a) || a == b,
        bytes_lt(a, b) ==> !bytes_lt(b, a),
        bytes_lt(a, b) ==> a != b,
    decreases a.len(),
{
    if a.len() == 0 || b.len() == 0 {
        if a.len() == 0 && b.len() == 0 {
            assert(a =~= b);
        }
    } else if a[0] != b[0] {
    } else {
        lemma_bytes_lt_trichotomy(a.drop_first(), b.drop_first());
        if !bytes_lt(a, b) && !bytes_lt(b, a) {
            lemma_head_tail_eq(a, b);
        }
        if bytes_lt(a, b) && a == b {
            assert(a.drop_first() == b.drop_first());
        }
    }
}

pub proof fn lemma_bytes_lt_trans(a: Seq<u8>, b: Seq<u8>, c: Seq<u8>)
    requires
        bytes_lt(a, b),
        bytes_lt(b, c),
    ensures
        bytes_lt(a, c),
    decreases a.len(),
{
    if a.len() == 0 {
    } else if b.len() == 0 || c.len() == 0 {
    } else if a[0] == b[0] && b[0] == c[0] {
        lemma_bytes_lt_trans(a.drop_first(), b.drop_first(), c.drop_first());
    }
}

/// Of two distinct paths one is strictly below the other, and never both.
pub proof fn lemma_path_lt_trichotomy(a: Seq<Seq<u8>>, b: Seq<Seq<u8>>)
    ensures
        path_lt(a, b) || path_lt(b, a) || a == b,
        path_lt(a, b) ==> !path_lt(b, a),
        path_lt(a, b) ==> a != b,
    decreases a.len(),
{
    if a.len() == 0 || b.len() == 0 {
        if a.len() == 0 && b.len() == 0 {
            assert(a =~= b);
        }
    } else if a[0] != b[0] {
        lemma_bytes_lt_trichotomy(a[0], b[0]);
    } else {
        lemma_path_lt_trichotomy(a.drop_first(), b.drop_first());
        if !path_lt(a, b) && !path_lt(b, a) {
            lemma_head_tail_eq(a, b);
        }
        if path_lt(a, b) && a == b {
            assert(a.drop_first() == b.drop_first());
        }
    }
}

pub proof fn lemma_path_lt_trans(a: Seq<Seq<u8>>, b: Seq<Seq<u8>>, c: Seq<Seq<u8>>)
    requires
        path_lt(a, b),
        path_lt(b, c),
    ensures
        path_lt(a, c),
    decreases a.len(),
{
    if a.len() == 0 {
    } else if b.len() == 0 || c.len() == 0 {
    } else if a[0] == b[0] && b[0] == c[0] {
        lemma_path_lt_trans(a.drop_first(), b.drop_first(), c.drop_first());
    } else if a[0] == b[0] {
        // b[0] != c[0], so bytes_lt(b[0], c[0]) and a[0] == b[0].
        lemma_bytes_lt_trichotomy(a[0], c[0]);
    } else if b[0] == c[0] {
        lemma_bytes_lt_trichotomy(a[0], c[0]);
    } else {
        lemma_bytes_lt_trans(a[0], b[0], c[0]);
        lemma_bytes_lt_trichotomy(a[0], c[0]);
    }
}

/// Non-strict companion of `path_lt`.
pub open spec fn path_le(a: Seq<Seq<u8>>, b: Seq<Seq<u8>>) -> bool {
    path_lt(a, b) || a == b
}

pub proof fn lemma_path_lt_le_trans(a: Seq<Seq<u8>>, b: Seq<Seq<u8>>, c: Seq<Seq<u8>>)
    requires
        path_lt(a, b),
        path_le(b, c),
    ensures
        path_lt(a, c),
{
    if path_lt(b, c) {
        lemma_path_lt_trans(a, b, c);
    }
}

/// An ancestor path is strictly below every path properly extending it.
pub proof fn lemma_prefix_path_lt(a: Seq<Seq<u8>>, b: Seq<Seq<u8>>)
    requires
        a.len() < b.len(),
        a == b.take(a.len() as int),
    ensures
        path_lt(a, b),
    decreases a.len(),
{
    if a.len() == 0 {
    } else {
        assert(a[0] == b.take(a.len() as int)[0]);
        assert(a.drop_first() =~= b.drop_first().take(a.len() - 1)) by {
            assert(forall|i: int|
                0 <= i < a.len() - 1 ==> #[trigger] a.drop_first()[i] == a[i + 1]);
        }
        lemma_prefix_path_lt(a.drop_first(), b.drop_first());
    }
}

/// Three-way comparison result for paths and segments.
#[derive(Debug, PartialEq, Eq, Structural)]
pub enum PathOrder {
    Lt,
    Eq,
    Gt,
}

fn bytes_cmp_from(a: &Vec<u8>, b: &Vec<u8>, i: usize) -> (r: PathOrder)
    requires
        i <= a@.len(),
        i <= b@.len(),
    ensures
        r == PathOrder::Lt <==> bytes_lt(a@.skip(i as int), b@.skip(i as int)),
        r == PathOrder::Gt <==> bytes_lt(b@.skip(i as int), a@.skip(i as int)),
        r == PathOrder::Eq <==> a@.skip(i as int) == b@.skip(i as int),
    decreases a@.len() - i,
{
    proof {
        lemma_bytes_lt_trichotomy(a@.skip(i as int), b@.skip(i as int));
    }
    if i == a.len() {
        if i == b.len() {
            assert(a@.skip(i as int) =~= b@.skip(i as int));
            PathOrder::Eq
        } else {
            assert(a@.skip(i as int).len() == 0 && b@.skip(i as int).len() > 0);
            PathOrder::Lt
        }
    } else if i == b.len() {
        assert(b@.skip(i as int).len() == 0 && a@.skip(i as int).len() > 0);
        PathOrder::Gt
    } else {
        let x = a[i];
        let y = b[i];
        assert(a@.skip(i as int)[0] == a@[i as int]);
        assert(b@.skip(i as int)[0] == b@[i as int]);
        if x < y {
            PathOrder::Lt
        } else if y < x {
            PathOrder::Gt
        } else {
            let r = bytes_cmp_from(a, b, i + 1);
            proof {
                assert(a@.skip(i as int).drop_first() =~= a@.skip(i + 1));
                assert(b@.skip(i as int).drop_first() =~= b@.skip(i + 1));
                lemma_bytes_lt_trichotomy(b@.skip(i as int), a@.skip(i as int));
                if a@.skip(i + 1) == b@.skip(i + 1) {
                    assert(a@.skip(i as int) =~= b@.skip(i as int));
                }
            }
            r
        }
    }
}

/// Three-way byte-lexicographic comparison of two segments.
pub fn bytes_cmp(a: &Vec<u8>, b: &Vec<u8>) -> (r: PathOrder)
    ensures
        r == PathOrder::Lt <==> bytes_lt(a@, b@),
        r == PathOrder::Gt <==> bytes_lt(b@, a@),
        r == PathOrder::Eq <==> a@ == b@,
{
    let r = bytes_cmp_from(a, b, 0);
    proof {
        assert(a@.skip(0) =~= a@);
        assert(b@.skip(0) =~= b@);
    }
    r
}

fn path_cmp_from(a: &EntryPath, b: &EntryPath, i: usize) -> (r: PathOrder)
    requires
        i <= a@.len(),
        i <= b@.len(),
    ensures
        r == PathOrder::Lt <==> path_lt(a@.skip(i as int), b@.skip(i as int)),
        r == PathOrder::Gt <==> path_lt(b@.skip(i as int), a@.skip(i as int)),
        r == PathOrder::Eq <==> a@.skip(i as int) == b@.skip(i as int),
    decreases a@.len() - i,
{
    proof {
        lemma_path_lt_trichotomy(a@.skip(i as int), b@.skip(i as int));
    }
    if i == a.segments.len() {
        if i == b.segments.len() {
            assert(a@.skip(i as int) =~= b@.skip(i as int));
            PathOrder::Eq
        } else {
            assert(a@.skip(i as int).len() == 0 && b@.skip(i as int).len() > 0);
            PathOrder::Lt
        }
    } else if i == b.segments.len() {
        assert(b@.skip(i as int).len() == 0 && a@.skip(i as int).len() > 0);
        PathOrder::Gt
    } else {
        assert(a@.skip(i as int)[0] == a@[i as int]);
        assert(b@.skip(i as int)[0] == b@[i as int]);
        match bytes_cmp(&a.segments[i], &b.segments[i]) {
            PathOrder::Lt => {
                proof {
                    lemma_bytes_lt_trichotomy(a@[i as int], b@[i as int]);
                }
                PathOrder::Lt
            }
            PathOrder::Gt => {
                proof {
                    lemma_bytes_lt_trichotomy(b@[i as int], a@[i as int]);
                }
                PathOrder::Gt
            }
            PathOrder::Eq => {
                let r = path_cmp_from(a, b, i + 1);
                proof {
                    assert(a@.skip(i as int).drop_first() =~= a@.skip(i + 1));
                    assert(b@.skip(i as int).drop_first() =~= b@.skip(i + 1));
                    lemma_path_lt_trichotomy(b@.skip(i as int), a@.skip(i as int));
                    if a@.skip(i + 1) == b@.skip(i + 1) {
                        assert(a@.skip(i as int) =~= b@.skip(i as int));
                    }
                }
                r
            }
        }
    }
}

impl EntryPath {
    /// Well-formedness of the path's segment sequence.
    pub open spec fn wf(&self) -> bool {
        path_wf(self@)
    }

    /// An owned copy of this path.
    pub fn duplicate(&self) -> (r: EntryPath)
        ensures
            r@ == self@,
    {
        let mut segments: Vec<Vec<u8>> = Vec::new();
        let mut i: usize = 0;
        while i < self.segments.len()
            invariant
                0 <= i <= self.segments@.len(),
                segments@.len() == i,
                forall|k: int| 0 <= k < i ==> #[trigger] segments@[k]@ == self@[k],
            decreases self.segments@.len() - i,
        {
            let mut seg: Vec<u8> = Vec::new();
            let mut k: usize = 0;
            while k < self.segments[i].len()
                invariant
                    0 <= i < self.segments@.len(),
                    0 <= k <= self.segments@[i as int]@.len(),
                    seg@ == self.segments@[i as int]@.take(k as int),
                decreases self.segments@[i as int]@.len() - k,
            {
                proof {
                    assert(self.segments@[i as int]@.take(k + 1).drop_last()
                        =~= self.segments@[i as int]@.take(k as int));
                    assert(self.segments@[i as int]@.take(k + 1).last()
                        == self.segments@[i as int]@[k as int]);
                }
                seg.push(self.segments[i][k]);
                k += 1;
            }
            proof {
                assert(seg@ =~= self.segments@[i as int]@);
            }
            segments.push(seg);
            i += 1;
        }
        let r = EntryPath { segments };
        proof {
            assert(r@ =~= self@);
        }
        r
    }

    /// Three-way comparison in the lexicographic segment order.
    pub fn cmp(&self, other: &EntryPath) -> (r: PathOrder)
        ensures
            r == PathOrder::Lt <==> path_lt(self@, other@),
            r == PathOrder::Gt <==> path_lt(other@, self@),
            r == PathOrder::Eq <==> self@ == other@,
    {
        let r = path_cmp_from(self, other, 0);
        proof {
            assert(self@.skip(0) =~= self@);
            assert(other@.skip(0) =~= other@);
        }
        r
    }
}

/// The display form of a segment sequence: the segments joined by `/`.
pub open spec fn joined(p: Seq<Seq<u8>>) -> Seq<u8>
    decreases p.len(),
{
    if p.len() == 0 {
        Seq::empty()
    } else if p.len() == 1 {
        p[0]
    } else {
        joined(p.drop_last()) + seq![SLASH] + p.last()
    }
}

/// The segment sequence a byte string denotes: the maximal runs between
/// separator bytes.
pub open spec fn split_path(b: Seq<u8>) -> Seq<Seq<u8>>
    decreases b.len(),
{
    if b.len() == 0 {
        Seq::empty()
    } else {
        let p = crate::text::first_pos(b, SLASH);
        if 0 <= p < b.len() {
            seq![b.take(p)] + split_path(b.skip(p + 1))
        } else {
            seq![b]
        }
    }
}

/// Byte strings that denote a well-formed relative path: non-empty, no
/// leading or trailing separator, and no empty segment in between.
pub open spec fn valid_path_bytes(b: Seq<u8>) -> bool {
    &&& b.len() > 0
    &&& b[0] != SLASH
    &&& b[b.len() - 1] != SLASH
    &&& forall|k: int| 0 <= k < b.len() - 1 ==> !(#[trigger] b[k] == SLASH && b[k + 1] == SLASH)
}

impl EntryPath {
    /// Split a slash-normalized byte string into a path. Succeeds exactly on
    /// the well-formed spellings, and on those it returns the path whose
    /// display form is the input itself.
    #[verifier::loop_isolation(false)]
    #[verifier::rlimit(60)]
    pub fn parse(s: &Vec<u8>) -> (r: Option<EntryPath>)
        ensures
            r is Some <==> valid_path_bytes(s@),
            match r {
                Some(path) => path.wf() && path@ == split_path(s@) && joined(path@) == s@,
                None => true,
            },
    {
        let mut segs: Vec<Vec<u8>> = Vec::new();
        let mut cur: Vec<u8> = Vec::new();
        let ghost mut vs: Seq<Seq<u8>> = Seq::empty();
        let mut i: usize = 0;
        proof {
            assert(s@.skip(0) =~= s@);
            assert(split_path(s@) =~= vs + split_path(s@.skip(0)));
        }
        while i < s.len()
            invariant
                0 <= i <= s@.len(),
                split_path(s@) == vs + split_path(s@.skip(i - cur@.len())),
                vs.len() == segs@.len(),
                forall|k: int| 0 <= k < vs.len() ==> #[trigger] segs@[k]@ == vs[k],
                forall|k: int| 0 <= k < vs.len() ==> segment_wf(#[trigger] vs[k]),
                forall|k: int| 0 <= k < cur@.len() ==> cur@[k] != SLASH,
                cur@.len() == 0 <==> (i == 0 || s@[i - 1] == SLASH),
                if vs.len() == 0 {
                    s@.take(i as int) == cur@
                } else {
                    s@.take(i as int) == joined(vs) + seq![SLASH] + cur@
                },
                i > 0 ==> s@[0] != SLASH,
                forall|k: int|
                    0 <= k < i - 1 ==> !(#[trigger] s@[k] == SLASH && s@[k + 1] == SLASH),
            decreases s@.len() - i,
        {
            proof {
                assert(s@.take(i + 1).drop_last() =~= s@.take(i as int));
                assert(s@.take(i + 1).last() == s@[i as int]);
            }
            let b = s[i];
            if b == SLASH {
                if cur.len() == 0 {
                    // A leading separator or an empty segment.
                    return None;
                }
                proof {
                    assert(vs.push(cur@).drop_last() =~= vs);
                    assert(vs.push(cur@).last() == cur@);
                    if vs.len() == 0 {
                        assert(joined(vs.push(cur@)) == cur@);
                    }
                    assert(s@.take(i + 1) =~= joined(vs.push(cur@)) + seq![SLASH]
                        + Seq::<u8>::empty());
                    // The current segment is the first slash-free run of the
                    // unsplit remainder.
                    let start = i - cur@.len();
                    let rest = s@.skip(start);
                    assert forall|k: int| 0 <= k < cur@.len() implies rest[k] == cur@[k] by {
                        assert(s@.take(i as int)[start + k] == cur@[k]);
                    }
                    assert(rest[cur@.len() as int] == SLASH);
                    crate::text::lemma_first_pos_char(rest, SLASH);
                    let p = crate::text::first_pos(rest, SLASH);
                    assert(p == cur@.len()) by {
                        if p < cur@.len() {
                            assert(rest[p] == SLASH);
                            assert(cur@[p] != SLASH);
                        }
                        if p > cur@.len() {
                            assert(rest[cur@.len() as int] != SLASH);
                        }
                    }
                    assert(rest.take(p) =~= cur@);
                    assert(rest.skip(p + 1) =~= s@.skip(i + 1));
                    assert(split_path(rest) == seq![cur@] + split_path(s@.skip(i + 1)));
                    assert(vs + split_path(rest) =~= vs.push(cur@) + split_path(s@.skip(i + 1)));
                }
                segs.push(cur);
                proof {
                    vs = vs.push(cur@);
                }
                cur = Vec::new();
            } else {
                proof {
                    if vs.len() == 0 {
                        assert(s@.take(i + 1) =~= cur@.push(b));
                    } else {
                        assert(s@.take(i + 1) =~= joined(vs) + seq![SLASH] + cur@.push(b));
                    }
                }
                cur.push(b);
            }
            i += 1;
        }
        if cur.len() == 0 {
            // Empty input, or a trailing separator.
            return None;
        }
        proof {
            assert(s@.take(s@.len() as int) =~= s@);
            assert(vs.push(cur@).drop_last() =~= vs);
            assert(vs.push(cur@).last() == cur@);
            if vs.len() == 0 {
                assert(joined(vs.push(cur@)) == cur@);
            }
            assert(valid_path_bytes(s@));
            // The remainder is exactly the final segment, with no separator.
            let start = s@.len() - cur@.len();
            let rest = s@.skip(start);
            assert forall|k: int| 0 <= k < cur@.len() implies rest[k] == cur@[k] by {
                assert(s@.take(s@.len() as int)[start + k] == cur@[k]);
            }
            assert(rest =~= cur@);
            crate::text::lemma_first_pos_char(rest, SLASH);
            let p = crate::text::first_pos(rest, SLASH);
            assert(p == rest.len()) by {
                if p < rest.len() {
                    assert(rest[p] == SLASH);
                    assert(cur@[p] != SLASH);
                }
            }
            assert(split_path(rest) == seq![cur@]);
            assert(split_path(s@) =~= vs.push(cur@));
        }
        segs.push(cur);
        proof {
            vs = vs.push(cur@);
        }
        let path = EntryPath { segments: segs };
        proof {
            assert(path@ =~= vs);
            assert(joined(path@) == s@);
            assert(path.wf());
        }
        Some(path)
    }

    /// The display form of the path: its segments joined by `/`.
    #[verifier::loop_isolation(false)]
    pub fn display_bytes(&self) -> (r: Vec<u8>)
        ensures
            r@ == joined(self@),
    {
        let mut out: Vec<u8> = Vec::new();
        let mut i: usize = 0;
        proof {
            assert(out@ =~= joined(self@.take(0)));
        }
        while i < self.segments.len()
            invariant
                0 <= i <= self.segments@.len(),
                out@ == joined(self@.take(i as int)),
            decreases self.segments@.len() - i,
        {
            proof {
                assert(self@.take(i + 1).drop_last() =~= self@.take(i as int));
                assert(self@.take(i + 1).last() == self@[i as int]);
            }
            let ghost before = out@;
            if i > 0 {
                out.push(SLASH);
            }
            let mut k: usize = 0;
            while k < self.segments[i].len()
                invariant
                    0 <= i < self.segments@.len(),
                    0 <= k <= self.segments@[i as int]@.len(),
                    out@ == (if i == 0 {
                        before
                    } else {
                        before + seq![SLASH]
                    }) + self.segments@[i as int]@.take(k as int),
                decreases self.segments@[i as int]@.len() - k,
            {
                proof {
                    assert(self.segments@[i as int]@.take(k + 1).drop_last()
                        =~= self.segments@[i as int]@.take(k as int));
                    assert(self.segments@[i as int]@.take(k + 1).last()
                        == self.segments@[i as int]@[k as int]);
                }
                out.push(self.segments[i][k]);
                k += 1;
            }
            proof {
                assert(self.segments@[i as int]@.take(self.segments@[i as int]@.len() as int)
                    =~= self@[i as int]);
                if i == 0 {
                    assert(out@ =~= joined(self@.take(i + 1)));
                } else {
                    assert(out@ =~= joined(self@.take(i as int)) + seq![SLASH] + self@[i as int]);
                    assert(out@ =~= joined(self@.take(i + 1)));
                }
            }
            i += 1;
        }
        proof {
            assert(self@.take(self@.len() as int) =~= self@);
        }
        out
    }
}

/// Drop one trailing separator from a root path, if there is one. Roots are
/// handled in slash-normalized display form throughout.
pub fn strip_path_trailing_sep(p: Vec<u8>) -> (r: Vec<u8>)
    ensures
        r@ == (if p@.len() > 0 && p@[p@.len() - 1] == SLASH {
            p@.drop_last()
        } else {
            p@
        }),
{
    let mut p = p;
    if p.len() > 0 && p[p.len() - 1] == SLASH {
        p.pop();
    }
    p
}

} // verus!
