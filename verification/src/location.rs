//! Source and destination locations, parsed from their string form: a bare
//! path is local, `user@host:path` is reached over SSH, and an HTTP(S) URL is
//! a read-only HTTP endpoint. Remote-to-remote transfer and HTTP as a
//! destination are rejected by design.

use vstd::prelude::*;

use crate::digest::clone_bytes;

verus! {

/// A parsed location.
pub enum Location {
    Local(Vec<u8>),
    Ssh { user: Vec<u8>, host: Vec<u8>, path: Vec<u8> },
    Http(Vec<u8>),
}

/// The mathematical form of a location.
pub enum LocationModel {
    Local(Seq<u8>),
    Ssh { user: Seq<u8>, host: Seq<u8>, path: Seq<u8> },
    Http(Seq<u8>),
}

impl View for Location {
    type V = LocationModel;

    open spec fn view(&self) -> LocationModel {
        match self {
            Location::Local(p) => LocationModel::Local(p@),
            Location::Ssh { user, host, path } => LocationModel::Ssh {
                user: user@,
                host: host@,
                path: path@,
            },
            Location::Http(u) => LocationModel::Http(u@),
        }
    }
}

/// The first position of `b` in `s`, or -1.
pub open spec fn find_byte(s: Seq<u8>, b: u8) -> int
    decreases s.len(),
{
    if s.len() == 0 {
        -1
    } else if s.first() == b {
        0
    } else if find_byte(s.drop_first(), b) < 0 {
        -1
    } else {
        1 + find_byte(s.drop_first(), b)
    }
}

/// Whether `s` starts with `p`.
pub open spec fn starts_with(s: Seq<u8>, p: Seq<u8>) -> bool {
    s.len() >= p.len() && s.take(p.len() as int) == p
}

pub open spec fn http_prefix() -> Seq<u8> {
    seq![104u8, 116u8, 116u8, 112u8, 58u8, 47u8, 47u8]  // "http://"
}

pub open spec fn https_prefix() -> Seq<u8> {
    seq![104u8, 116u8, 116u8, 112u8, 115u8, 58u8, 47u8, 47u8]  // "https://"
}

pub open spec fn scheme_marker() -> Seq<u8> {
    seq![58u8, 47u8, 47u8]  // "://"
}

/// Whether `s` holds `m` anywhere.
pub open spec fn contains_seq(s: Seq<u8>, m: Seq<u8>) -> bool {
    exists|i: int| 0 <= i <= s.len() - m.len() && #[trigger] s.subrange(i, i + m.len()) == m
}

/// What a location string means. An HTTP(S) URL is HTTP; any other URL
/// scheme is refused; `user@host:path` with a nonempty user and host is SSH;
/// everything else is a local path.
pub open spec fn spec_parse(s: Seq<u8>) -> Option<LocationModel> {
    if starts_with(s, http_prefix()) || starts_with(s, https_prefix()) {
        Some(LocationModel::Http(s))
    } else if contains_seq(s, scheme_marker()) {
        None
    } else {
        let a = find_byte(s, 64u8);  // '@'
        let c = find_byte(s, 58u8);  // ':'
        if 0 < a && a < c {
            Some(
                LocationModel::Ssh {
                    user: s.take(a),
                    host: s.subrange(a + 1, c),
                    path: s.subrange(c + 1, s.len() as int),
                },
            )
        } else if c >= 0 {
            None
        } else {
            Some(LocationModel::Local(s))
        }
    }
}

/// The first position of `b` in `s`, executably.
fn find_byte_exec(s: &Vec<u8>, b: u8) -> (r: Option<usize>)
    ensures
        match r {
            Some(i) => i < s@.len() && find_byte(s@, b) == i,
            None => find_byte(s@, b) < 0,
        },
{
    let n = s.len();
    let mut i: usize = 0;
    while i < n
        invariant
            i <= n == s@.len(),
            forall|j: int| 0 <= j < i ==> s@[j] != b,
        decreases n - i,
    {
        if s[i] == b {
            proof {
                lemma_find_byte_at(s@, b, i as int);
            }
            return Some(i);
        }
        i += 1;
    }
    proof {
        lemma_find_byte_none(s@, b);
    }
    None
}

proof fn lemma_find_byte_at(s: Seq<u8>, b: u8, i: int)
    requires
        0 <= i < s.len(),
        s[i] == b,
        forall|j: int| 0 <= j < i ==> s[j] != b,
    ensures
        find_byte(s, b) == i,
    decreases s.len(),
{
    if i > 0 {
        lemma_find_byte_at(s.drop_first(), b, i - 1);
    }
}

proof fn lemma_find_byte_none(s: Seq<u8>, b: u8)
    requires
        forall|j: int| 0 <= j < s.len() ==> s[j] != b,
    ensures
        find_byte(s, b) < 0,
    decreases s.len(),
{
    if s.len() > 0 {
        lemma_find_byte_none(s.drop_first(), b);
    }
}

/// Whether `s` starts with the literal prefix `p`.
fn starts_with_exec(s: &Vec<u8>, p: &Vec<u8>) -> (r: bool)
    ensures
        r == starts_with(s@, p@),
{
    let m = p.len();
    if s.len() < m {
        return false;
    }
    let mut i: usize = 0;
    while i < m
        invariant
            i <= m == p@.len() <= s@.len(),
            forall|j: int| 0 <= j < i ==> s@[j] == p@[j],
        decreases m - i,
    {
        if s[i] != p[i] {
            assert(s@.take(m as int)[i as int] != p@[i as int]);
            return false;
        }
        i += 1;
    }
    proof {
        assert(s@.take(m as int) =~= p@);
    }
    true
}

/// Whether `s` holds "://" anywhere.
fn contains_marker(s: &Vec<u8>) -> (r: bool)
    ensures
        r == contains_seq(s@, scheme_marker()),
{
    let n = s.len();
    if n < 3 {
        return false;
    }
    let mut i: usize = 0;
    while i <= n - 3
        invariant
            3 <= n == s@.len(),
            i <= n - 2,
            forall|j: int| 0 <= j < i ==> #[trigger] s@.subrange(j, j + 3) != scheme_marker(),
        decreases n - i,
    {
        if s[i] == 58 && s[i + 1] == 47 && s[i + 2] == 47 {
            proof {
                assert(s@.subrange(i as int, i + 3) =~= scheme_marker());
            }
            return true;
        }
        proof {
            if s@.subrange(i as int, i + 3) == scheme_marker() {
                assert(s@[i as int] == 58 && s@[i + 1] == 47 && s@[i + 2] == 47);
            }
        }
        i += 1;
    }
    false
}

impl Location {
    /// Parse a location string: exactly `spec_parse` of its bytes.
    pub fn parse(s: &Vec<u8>) -> (r: Option<Location>)
        ensures
            match r {
                Some(l) => spec_parse(s@) == Some(l@),
                None => spec_parse(s@) is None,
            },
    {
        let http: Vec<u8> = vec![104u8, 116u8, 116u8, 112u8, 58u8, 47u8, 47u8];
        let https: Vec<u8> = vec![104u8, 116u8, 116u8, 112u8, 115u8, 58u8, 47u8, 47u8];
        proof {
            assert(http@ =~= http_prefix());
            assert(https@ =~= https_prefix());
        }
        if starts_with_exec(s, &http) || starts_with_exec(s, &https) {
            return Some(Location::Http(clone_bytes(s)));
        }
        if contains_marker(s) {
            return None;
        }
        let a = find_byte_exec(s, 64);
        let c = find_byte_exec(s, 58);
        match (a, c) {
            (Some(ai), Some(ci)) if 0 < ai && ai < ci => {
                proof {
                    assert(ci < s@.len());
                }
                let user = crate::chunker::copy_range(s, 0, ai);
                let host = crate::chunker::copy_range(s, ai + 1, ci);
                let sl = s.len();
                let path = crate::chunker::copy_range(s, ci + 1, sl);
                proof {
                    assert(user@ =~= s@.take(ai as int));
                }
                Some(Location::Ssh { user, host, path })
            },
            (_, Some(_)) => None,
            (_, None) => Some(Location::Local(clone_bytes(s))),
        }
    }

    /// Whether this pairing of source and destination is supported: HTTP can
    /// only be read, and remote-to-remote transfer is refused.
    pub fn direction_supported(source: &Location, dest: &Location) -> (r: bool)
        ensures
            r == spec_direction_supported(source@, dest@),
    {
        match (source, dest) {
            (_, Location::Http(_)) => false,
            (Location::Http(_), Location::Local(_)) => true,
            (Location::Http(_), _) => false,
            (Location::Ssh { .. }, Location::Ssh { .. }) => false,
            _ => true,
        }
    }
}

/// The supported transport pairings: anything into Local; Local into SSH.
pub open spec fn spec_direction_supported(source: LocationModel, dest: LocationModel) -> bool {
    match (source, dest) {
        (_, LocationModel::Http(_)) => false,
        (LocationModel::Http(_), LocationModel::Local(_)) => true,
        (LocationModel::Http(_), _) => false,
        (LocationModel::Ssh { .. }, LocationModel::Ssh { .. }) => false,
        _ => true,
    }
}

} // verus!
