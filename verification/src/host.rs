//! Remote host identifiers and the `host:path` remote descriptor.

use vstd::prelude::*;

use crate::path::SLASH;

verus! {

/// A remote host identifier, kept as the bytes of its name.
#[derive(Debug)]
pub struct Host {
    name: Vec<u8>,
}

impl View for Host {
    type V = Seq<u8>;

    closed spec fn view(&self) -> Seq<u8> {
        self.name@
    }
}

impl Host {
    pub fn new(name: Vec<u8>) -> (r: Self)
        ensures
            r@ == name@,
    {
        Host { name }
    }

    /// The bytes of the host name.
    pub fn name(&self) -> (r: &Vec<u8>)
        ensures
            r@ == self@,
    {
        &self.name
    }
}

/// A remote endpoint: a host and a directory on it.
#[derive(Debug)]
pub struct Remote {
    pub host: Host,
    pub dir: Vec<u8>,
}

/// The directory part of a remote descriptor, normalized: a trailing
/// separator is dropped, and a leading home prefix `~/` (or a bare `~`) is
/// stripped, since a relative remote path already starts from home.
pub open spec fn normalized_remote_dir(d: Seq<u8>) -> Seq<u8> {
    let trimmed = if d.len() > 0 && d.last() == SLASH {
        d.drop_last()
    } else {
        d
    };
    if trimmed.len() == 1 && trimmed[0] == 126 {
        Seq::empty()
    } else if trimmed.len() >= 2 && trimmed[0] == 126 && trimmed[1] == SLASH {
        trimmed.skip(2)
    } else {
        trimmed
    }
}

impl Remote {
    /// Parse a `host:path` descriptor: the host is everything before the
    /// first colon, the directory everything after it, normalized. A
    /// descriptor without a colon is malformed and yields `None`.
    pub fn parse(s: &Vec<u8>) -> (r: Option<Remote>)
        ensures
            match r {
                Some(remote) => {
                    let c = crate::text::first_pos(s@, 58);
                    &&& c < s@.len()
                    &&& remote.host@ == s@.take(c)
                    &&& remote.dir@ == normalized_remote_dir(s@.skip(c + 1))
                },
                None => crate::text::first_pos(s@, 58) == s@.len(),
            },
    {
        proof {
            crate::text::lemma_first_pos_char(s@, 58);
        }
        let mut c: usize = 0;
        while c < s.len() && s[c] != 58
            invariant
                0 <= c <= s@.len(),
                forall|k: int| 0 <= k < c ==> s@[k] != 58,
            decreases s@.len() - c,
        {
            c += 1;
        }
        if c == s.len() {
            proof {
                assert(crate::text::first_pos(s@, 58) == s@.len()) by {
                    if crate::text::first_pos(s@, 58) < s@.len() {
                        assert(s@[crate::text::first_pos(s@, 58)] == 58);
                    }
                }
            }
            return None;
        }
        // c is the first colon.
        proof {
            assert(c == crate::text::first_pos(s@, 58)) by {
                if crate::text::first_pos(s@, 58) < c {
                    assert(s@[crate::text::first_pos(s@, 58)] != 58);
                }
                if crate::text::first_pos(s@, 58) > c {
                    assert(s@[c as int] != 58);
                }
            }
        }
        let mut host: Vec<u8> = Vec::new();
        let mut k: usize = 0;
        while k < c
            invariant
                0 <= k <= c < s@.len(),
                host@ == s@.take(k as int),
            decreases c - k,
        {
            proof {
                assert(s@.take(k + 1).drop_last() =~= s@.take(k as int));
                assert(s@.take(k + 1).last() == s@[k as int]);
            }
            host.push(s[k]);
            k += 1;
        }
        let mut dir: Vec<u8> = Vec::new();
        let mut k: usize = c + 1;
        while k < s.len()
            invariant
                c + 1 <= k <= s@.len(),
                dir@ == s@.subrange(c + 1, k as int),
            decreases s@.len() - k,
        {
            proof {
                assert(s@.subrange(c + 1, k + 1).drop_last() =~= s@.subrange(c + 1, k as int));
                assert(s@.subrange(c + 1, k + 1).last() == s@[k as int]);
            }
            dir.push(s[k]);
            k += 1;
        }
        proof {
            assert(dir@ =~= s@.skip(c + 1));
        }
        let ghost raw = s@.skip(c + 1);
        // Drop a trailing separator.
        if dir.len() > 0 && dir[dir.len() - 1] == SLASH {
            dir.pop();
            proof {
                assert(dir@ =~= raw.drop_last());
            }
        }
        let ghost trimmed = dir@;
        // Strip the home prefix.
        if dir.len() == 1 && dir[0] == 126 {
            let empty: Vec<u8> = Vec::new();
            proof {
                assert(empty@ =~= normalized_remote_dir(raw));
            }
            return Some(Remote { host: Host::new(host), dir: empty });
        }
        if dir.len() >= 2 && dir[0] == 126 && dir[1] == SLASH {
            let mut stripped: Vec<u8> = Vec::new();
            let mut k: usize = 2;
            while k < dir.len()
                invariant
                    2 <= k <= dir@.len(),
                    dir@ == trimmed,
                    stripped@ == trimmed.subrange(2, k as int),
                decreases dir@.len() - k,
            {
                proof {
                    assert(trimmed.subrange(2, k + 1).drop_last() =~= trimmed.subrange(
                        2,
                        k as int,
                    ));
                    assert(trimmed.subrange(2, k + 1).last() == trimmed[k as int]);
                }
                stripped.push(dir[k]);
                k += 1;
            }
            proof {
                assert(stripped@ =~= normalized_remote_dir(raw));
            }
            return Some(Remote { host: Host::new(host), dir: stripped });
        }
        proof {
            assert(dir@ =~= normalized_remote_dir(raw));
        }
        Some(Remote { host: Host::new(host), dir })
    }
}

} // verus!
