//! The transport-agnostic replication engine: a source enumerates
//! `{path -> digest sequence}` and serves block bytes; a sink (an index
//! transaction) is driven to converge on the source's state. The engine
//! plans per-file transfers with a batched existence query over the sink's
//! block store, applies each file independently (one file's failure leaves
//! its entry untouched and does not stop the others), and the caller fetches
//! the missing blocks between planning and applying.

use vstd::prelude::*;

use crate::Error;
use crate::chunker::MAX_BLOCK_SIZE;
use crate::digest::{HashDigest, bytes_eq, clone_bytes, compute_digest, digest_of};
use crate::index::{
    Block, FileEntry, IndexTransaction, block_for, entry_for, find_block_idx, find_entry_idx,
    has_block, lemma_block_for_exists, total_refs,
};

verus! {

/// What a source reports about one of its files.
pub struct SourceFile {
    pub path: Vec<u8>,
    pub size: u64,
    pub mtime: u64,
    pub digests: Vec<HashDigest>,
}

/// One planned file transfer: the target entry and the digests the sink's
/// block store does not hold yet (each listed once), which are the only
/// blocks the caller must fetch.
pub struct FileTransfer {
    pub path: Vec<u8>,
    pub size: u64,
    pub mtime: u64,
    pub digests: Vec<HashDigest>,
    pub missing: Vec<HashDigest>,
}

/// A block fetched from the source for one transfer.
pub struct FetchedBlock {
    pub digest: HashDigest,
    pub bytes: Vec<u8>,
}

/// Two digest sequences naming the same contents.
pub open spec fn digests_match(a: Seq<HashDigest>, b: Seq<HashDigest>) -> bool {
    a.len() == b.len() && forall|l: int| 0 <= l < a.len() ==> (#[trigger] a[l])@ == b[l]@
}

/// Whether a source file is absent or differing at the sink.
pub open spec fn needs_transfer(sf: SourceFile, files: Seq<FileEntry>) -> bool {
    match entry_for(files, sf.path@) {
        None => true,
        Some(e) => !(digests_match(e.digests@, sf.digests@) && e.size == sf.size && e.mtime
            == sf.mtime),
    }
}

/// Whether no source file has this path.
pub open spec fn path_not_in(p: Seq<u8>, source: Seq<SourceFile>) -> bool {
    forall|s: int| 0 <= s < source.len() ==> (#[trigger] source[s]).path@ != p
}

/// A faithful transfer for `sf` against a sink with block store `blocks`:
/// same target entry, and `missing` lists exactly the digests of the file
/// that the sink does not hold, each once.
pub open spec fn transfer_of(t: FileTransfer, sf: SourceFile, blocks: Seq<Block>) -> bool {
    &&& t.path@ == sf.path@
    &&& t.size == sf.size
    &&& t.mtime == sf.mtime
    &&& digests_match(t.digests@, sf.digests@)
    &&& forall|m: int|
        0 <= m < t.missing@.len() ==> !has_block(blocks, (#[trigger] t.missing@[m])@) && exists|
            l: int,
        | 0 <= l < t.digests@.len() && (#[trigger] t.digests@[l])@ == t.missing@[m]@
    &&& forall|l: int|
        0 <= l < t.digests@.len() && !has_block(blocks, (#[trigger] t.digests@[l])@) ==> exists|
            m: int,
        | 0 <= m < t.missing@.len() && (#[trigger] t.missing@[m])@ == t.digests@[l]@
    &&& forall|m: int, m2: int|
        0 <= m < m2 < t.missing@.len() ==> (#[trigger] t.missing@[m])@ != (
        #[trigger] t.missing@[m2])@
}

/// Copy a digest vector.
fn clone_digests(ds: &Vec<HashDigest>) -> (r: Vec<HashDigest>)
    ensures
        r@.len() == ds@.len(),
        forall|l: int| 0 <= l < ds@.len() ==> (#[trigger] r@[l])@ == ds@[l]@,
{
    let n = ds.len();
    let mut r: Vec<HashDigest> = Vec::new();
    let mut l: usize = 0;
    while l < n
        invariant
            l <= n == ds@.len(),
            r@.len() == l,
            forall|m: int| 0 <= m < l ==> (#[trigger] r@[m])@ == ds@[m]@,
        decreases n - l,
    {
        let h = ds[l].duplicate();
        r.push(h);
        l += 1;
    }
    r
}

/// Enumerate a transaction as a source would: one record per entry, with
/// its path, metadata and digest sequence, in store order. Unique store
/// paths give unique record paths.
pub fn enumerate(tx: &IndexTransaction) -> (r: Vec<SourceFile>)
    ensures
        r@.len() == tx.files@.len(),
        forall|i: int|
            0 <= i < r@.len() ==> (#[trigger] r@[i]).path@ == tx.files@[i].path@ && r@[i].size
                == tx.files@[i].size && r@[i].mtime == tx.files@[i].mtime && digests_match(
                r@[i].digests@,
                tx.files@[i].digests@,
            ),
        paths_unique(tx.files@) ==> forall|a: int, b: int|
            0 <= a < b < r@.len() ==> (#[trigger] r@[a]).path@ != (#[trigger] r@[b]).path@,
{
    let n = tx.files.len();
    let mut r: Vec<SourceFile> = Vec::new();
    let mut i: usize = 0;
    while i < n
        invariant
            i <= n == tx.files@.len(),
            r@.len() == i,
            forall|j: int|
                0 <= j < i ==> (#[trigger] r@[j]).path@ == tx.files@[j].path@ && r@[j].size
                    == tx.files@[j].size && r@[j].mtime == tx.files@[j].mtime && digests_match(
                    r@[j].digests@,
                    tx.files@[j].digests@,
                ),
        decreases n - i,
    {
        let e = &tx.files[i];
        let sf = SourceFile {
            path: clone_bytes(&e.path),
            size: e.size,
            mtime: e.mtime,
            digests: clone_digests(&e.digests),
        };
        r.push(sf);
        i += 1;
    }
    r
}

/// Whether a digest equal to `d` is already in `v`.
fn digest_in(v: &Vec<HashDigest>, d: &HashDigest) -> (r: bool)
    ensures
        r == exists|m: int| 0 <= m < v@.len() && (#[trigger] v@[m])@ == d@,
{
    let n = v.len();
    let mut m: usize = 0;
    while m < n
        invariant
            m <= n == v@.len(),
            forall|x: int| 0 <= x < m ==> (#[trigger] v@[x])@ != d@,
        decreases n - m,
    {
        if bytes_eq(&v[m].bytes, &d.bytes) {
            return true;
        }
        m += 1;
    }
    false
}

/// Plan one file: `None` when the sink already holds it unchanged, otherwise
/// the transfer with exactly the digests the sink is missing.
#[verifier::loop_isolation(false)]
pub fn plan_file(sf: &SourceFile, sink: &IndexTransaction) -> (r: Option<FileTransfer>)
    ensures
        match r {
            None => !needs_transfer(*sf, sink.files@),
            Some(t) => needs_transfer(*sf, sink.files@) && transfer_of(t, *sf, sink.blocks@),
        },
{
    // Does the sink entry already match?
    match find_entry_idx(&sink.files, &sf.path) {
        Some(i) => {
            let e = &sink.files[i];
            if e.size == sf.size && e.mtime == sf.mtime && e.digests.len() == sf.digests.len() {
                let n = e.digests.len();
                let mut l: usize = 0;
                let mut same = true;
                while l < n
                    invariant
                        l <= n == e.digests@.len() == sf.digests@.len(),
                        same == forall|x: int|
                            0 <= x < l ==> (#[trigger] e.digests@[x])@ == sf.digests@[x]@,
                    decreases n - l,
                {
                    if !bytes_eq(&e.digests[l].bytes, &sf.digests[l].bytes) {
                        same = false;
                    }
                    l += 1;
                }
                if same {
                    return None;
                }
            }
        },
        None => {},
    }
    // Collect the digests the sink's block store is missing, each once.
    let n = sf.digests.len();
    let mut missing: Vec<HashDigest> = Vec::new();
    let mut l: usize = 0;
    while l < n
        invariant
            l <= n == sf.digests@.len(),
            forall|m: int|
                0 <= m < missing@.len() ==> !has_block(
                    sink.blocks@,
                    (#[trigger] missing@[m])@,
                ) && exists|x: int|
                    0 <= x < sf.digests@.len() && (#[trigger] sf.digests@[x])@ == missing@[m]@,
            forall|x: int|
                0 <= x < l && !has_block(sink.blocks@, (#[trigger] sf.digests@[x])@) ==> exists|
                    m: int,
                | 0 <= m < missing@.len() && (#[trigger] missing@[m])@ == sf.digests@[x]@,
            forall|m: int, m2: int|
                0 <= m < m2 < missing@.len() ==> (#[trigger] missing@[m])@ != (
                #[trigger] missing@[m2])@,
        decreases n - l,
    {
        let ghost m_before = missing@;
        if !sink.contains_block(&sf.digests[l]) {
            if !digest_in(&missing, &sf.digests[l]) {
                let h = sf.digests[l].duplicate();
                missing.push(h);
                proof {
                    assert(missing@[m_before.len() as int]@ == sf.digests@[l as int]@);
                    assert forall|m: int, m2: int|
                        0 <= m < m2 < missing@.len() implies (#[trigger] missing@[m])@ != (
                    #[trigger] missing@[m2])@ by {
                        if m2 < m_before.len() {
                            assert(missing@[m] == m_before[m] && missing@[m2] == m_before[m2]);
                        } else {
                            assert(missing@[m] == m_before[m]);
                        }
                    }
                    assert forall|m: int| 0 <= m < missing@.len() implies !has_block(
                        sink.blocks@,
                        (#[trigger] missing@[m])@,
                    ) && exists|x: int|
                        0 <= x < sf.digests@.len() && (#[trigger] sf.digests@[x])@
                            == missing@[m]@ by {
                        if m < m_before.len() {
                            assert(missing@[m] == m_before[m]);
                        } else {
                            assert(sf.digests@[l as int]@ == missing@[m]@);
                        }
                    }
                }
            }
        }
        proof {
            assert forall|x: int|
                0 <= x < l + 1 && !has_block(
                    sink.blocks@,
                    (#[trigger] sf.digests@[x])@,
                ) implies exists|m: int|
                0 <= m < missing@.len() && (#[trigger] missing@[m])@ == sf.digests@[x]@ by {
                if x < l {
                    let m = choose|m: int|
                        0 <= m < m_before.len() && (#[trigger] m_before[m])@ == sf.digests@[x]@;
                    assert(missing@[m] == m_before[m]);
                    assert(missing@[m]@ == sf.digests@[x]@);
                } else {
                    if exists|m: int|
                        0 <= m < m_before.len() && (#[trigger] m_before[m])@ == sf.digests@[x]@ {
                        let m = choose|m: int|
                            0 <= m < m_before.len() && (#[trigger] m_before[m])@
                                == sf.digests@[x]@;
                        assert(missing@[m] == m_before[m]);
                        assert(missing@[m]@ == sf.digests@[x]@);
                    } else {
                        assert(missing@[m_before.len() as int]@ == sf.digests@[x]@);
                    }
                }
            }
        }
        l += 1;
    }
    let ghost miss = missing@;
    let t = FileTransfer {
        path: clone_bytes(&sf.path),
        size: sf.size,
        mtime: sf.mtime,
        digests: clone_digests(&sf.digests),
        missing,
    };
    proof {
        assert(t.missing@ == miss);
        assert(digests_match(t.digests@, sf.digests@));
        assert forall|m: int| 0 <= m < t.missing@.len() implies !has_block(
            sink.blocks@,
            (#[trigger] t.missing@[m])@,
        ) && exists|l2: int|
            0 <= l2 < t.digests@.len() && (#[trigger] t.digests@[l2])@ == t.missing@[m]@ by {
            assert(t.missing@[m] == miss[m]);
            let x = choose|x: int|
                0 <= x < sf.digests@.len() && (#[trigger] sf.digests@[x])@ == miss[m]@;
            assert(t.digests@[x]@ == sf.digests@[x]@);
            assert(t.digests@[x]@ == t.missing@[m]@);
        }
        assert forall|l2: int|
            0 <= l2 < t.digests@.len() && !has_block(
                sink.blocks@,
                (#[trigger] t.digests@[l2])@,
            ) implies exists|m: int|
            0 <= m < t.missing@.len() && (#[trigger] t.missing@[m])@ == t.digests@[l2]@ by {
            assert(sf.digests@[l2]@ == t.digests@[l2]@);
            let m = choose|m: int|
                0 <= m < miss.len() && (#[trigger] miss[m])@ == sf.digests@[l2]@;
            assert(t.missing@[m] == miss[m]);
            assert(t.missing@[m]@ == t.digests@[l2]@);
        }
    }
    Some(t)
}

/// Plan the transfers of a pass: one for every source file the sink is
/// missing or holding differently, in source order. No transfers means the
/// sink already holds every source file unchanged, so re-running a completed
/// sync plans nothing and transfers zero blocks.
#[verifier::loop_isolation(false)]
#[verifier::rlimit(60)]
pub fn plan_transfers(source: &Vec<SourceFile>, sink: &IndexTransaction) -> (r: Vec<FileTransfer>)
    ensures
        forall|t: int|
            0 <= t < r@.len() ==> exists|s: int|
                0 <= s < source@.len() && needs_transfer(#[trigger] source@[s], sink.files@)
                    && transfer_of(#[trigger] r@[t], source@[s], sink.blocks@),
        forall|s: int|
            0 <= s < source@.len() && needs_transfer(#[trigger] source@[s], sink.files@)
                ==> exists|t: int|
                0 <= t < r@.len() && transfer_of(#[trigger] r@[t], source@[s], sink.blocks@),
        (r@.len() == 0) <==> (forall|s: int|
            0 <= s < source@.len() ==> !needs_transfer(#[trigger] source@[s], sink.files@)),
        // distinct source paths give distinct transfer paths
        (forall|a: int, b: int|
            0 <= a < b < source@.len() ==> (#[trigger] source@[a]).path@ != (
            #[trigger] source@[b]).path@) ==> (forall|a: int, b: int|
            0 <= a < b < r@.len() ==> (#[trigger] r@[a]).path@ != (#[trigger] r@[b]).path@),
{
    let n = source.len();
    let mut transfers: Vec<FileTransfer> = Vec::new();
    let ghost mut srcs: Seq<int> = Seq::empty();
    let mut s: usize = 0;
    while s < n
        invariant
            s <= n == source@.len(),
            srcs.len() == transfers@.len(),
            forall|t2: int| 0 <= t2 < srcs.len() ==> 0 <= #[trigger] srcs[t2] < s,
            forall|t2: int, t3: int| 0 <= t2 < t3 < srcs.len() ==> srcs[t2] < srcs[t3],
            forall|t2: int|
                0 <= t2 < srcs.len() ==> (#[trigger] transfers@[t2]).path@
                    == source@[srcs[t2]].path@,
            forall|t: int|
                0 <= t < transfers@.len() ==> exists|s2: int|
                    0 <= s2 < source@.len() && needs_transfer(#[trigger] source@[s2], sink.files@)
                        && transfer_of(#[trigger] transfers@[t], source@[s2], sink.blocks@),
            forall|s2: int|
                0 <= s2 < s && needs_transfer(#[trigger] source@[s2], sink.files@) ==> exists|
                    t: int,
                |
                    0 <= t < transfers@.len() && transfer_of(
                        #[trigger] transfers@[t],
                        source@[s2],
                        sink.blocks@,
                    ),
            (transfers@.len() == 0) <==> (forall|s2: int|
                0 <= s2 < s ==> !needs_transfer(#[trigger] source@[s2], sink.files@)),
        decreases n - s,
    {
        let ghost t0 = transfers@;
        match plan_file(&source[s], sink) {
            None => {},
            Some(t) => {
                transfers.push(t);
                proof {
                    srcs = srcs.push(s as int);
                    assert(transfers@[srcs.len() - 1].path@ == source@[s as int].path@);
                    assert forall|t2: int| 0 <= t2 < transfers@.len() implies exists|s2: int|
                        0 <= s2 < source@.len() && needs_transfer(
                            #[trigger] source@[s2],
                            sink.files@,
                        ) && transfer_of(#[trigger] transfers@[t2], source@[s2], sink.blocks@) by {
                        if t2 < t0.len() {
                            assert(transfers@[t2] == t0[t2]);
                        } else {
                            assert(transfers@[t2] == t);
                            assert(needs_transfer(source@[s as int], sink.files@) && transfer_of(
                                transfers@[t2],
                                source@[s as int],
                                sink.blocks@,
                            ));
                        }
                    }
                    assert forall|s2: int|
                        0 <= s2 < s + 1 && needs_transfer(
                            #[trigger] source@[s2],
                            sink.files@,
                        ) implies exists|t2: int|
                        0 <= t2 < transfers@.len() && transfer_of(
                            #[trigger] transfers@[t2],
                            source@[s2],
                            sink.blocks@,
                        ) by {
                        if s2 < s {
                            let t2 = choose|t2: int|
                                0 <= t2 < t0.len() && transfer_of(
                                    #[trigger] t0[t2],
                                    source@[s2],
                                    sink.blocks@,
                                );
                            assert(transfers@[t2] == t0[t2]);
                        } else {
                            assert(transfers@[t0.len() as int] == t);
                        }
                    }
                }
            },
        }
        s += 1;
    }
    proof {
        if forall|a: int, b: int|
            0 <= a < b < source@.len() ==> (#[trigger] source@[a]).path@ != (
            #[trigger] source@[b]).path@ {
            assert forall|a: int, b: int| 0 <= a < b < transfers@.len() implies (
            #[trigger] transfers@[a]).path@ != (#[trigger] transfers@[b]).path@ by {
                assert(srcs[a] < srcs[b]);
                assert(source@[srcs[a]].path@ != source@[srcs[b]].path@);
            }
        }
    }
    transfers
}

/// Plan the deletions of a pass: the ids of the sink entries whose path the
/// source no longer has. No deletions means every sink path is still at the
/// source.
#[verifier::loop_isolation(false)]
pub fn plan_deletions(source: &Vec<SourceFile>, sink: &IndexTransaction) -> (r: Vec<u64>)
    ensures
        forall|x: int|
            0 <= x < r@.len() ==> exists|j: int|
                0 <= j < sink.files@.len() && (#[trigger] r@[x]) == (
                #[trigger] sink.files@[j]).file_id && path_not_in(sink.files@[j].path@, source@),
        (r@.len() == 0) <==> (forall|j: int|
            0 <= j < sink.files@.len() ==> !path_not_in(
                (#[trigger] sink.files@[j]).path@,
                source@,
            )),
        // every sink entry whose path the source no longer has is listed
        forall|j: int|
            0 <= j < sink.files@.len() && path_not_in((#[trigger] sink.files@[j]).path@, source@)
                ==> exists|x: int| 0 <= x < r@.len() && #[trigger] r@[x] == sink.files@[j].file_id,
{
    let n = source.len();
    let m = sink.files.len();
    let mut deletions: Vec<u64> = Vec::new();
    let mut j: usize = 0;
    while j < m
        invariant
            j <= m == sink.files@.len(),
            n == source@.len(),
            forall|x: int|
                0 <= x < deletions@.len() ==> exists|j2: int|
                    0 <= j2 < sink.files@.len() && (#[trigger] deletions@[x]) == (
                    #[trigger] sink.files@[j2]).file_id && path_not_in(
                        sink.files@[j2].path@,
                        source@,
                    ),
            (deletions@.len() == 0) <==> (forall|j2: int|
                0 <= j2 < j ==> !path_not_in((#[trigger] sink.files@[j2]).path@, source@)),
            forall|j2: int|
                0 <= j2 < j && path_not_in((#[trigger] sink.files@[j2]).path@, source@)
                    ==> exists|x: int|
                    0 <= x < deletions@.len() && #[trigger] deletions@[x]
                        == sink.files@[j2].file_id,
        decreases m - j,
    {
        let mut found = false;
        let mut s2: usize = 0;
        while s2 < n
            invariant
                s2 <= n == source@.len(),
                j < m == sink.files@.len(),
                found ==> !path_not_in(sink.files@[j as int].path@, source@),
                !found ==> forall|x: int|
                    0 <= x < s2 ==> (#[trigger] source@[x]).path@ != sink.files@[j as int].path@,
            decreases n - s2,
        {
            if bytes_eq(&source[s2].path, &sink.files[j].path) {
                found = true;
            }
            s2 += 1;
        }
        let ghost d0 = deletions@;
        if !found {
            deletions.push(sink.files[j].file_id);
            proof {
                assert(deletions@[d0.len() as int] == sink.files@[j as int].file_id);
            }
        }
        proof {
            assert forall|j2: int|
                0 <= j2 < j + 1 && path_not_in(
                    (#[trigger] sink.files@[j2]).path@,
                    source@,
                ) implies exists|x: int|
                0 <= x < deletions@.len() && #[trigger] deletions@[x]
                    == sink.files@[j2].file_id by {
                if j2 < j {
                    let x = choose|x: int|
                        0 <= x < d0.len() && #[trigger] d0[x] == sink.files@[j2].file_id;
                    assert(deletions@[x] == d0[x]);
                } else {
                    assert(deletions@[d0.len() as int] == sink.files@[j2].file_id);
                }
            }
        }
        j += 1;
    }
    deletions
}

} // verus!

verus! {

/// Every fetched block's digest really is the digest of its bytes.
pub open spec fn fetched_valid(fetched: Seq<FetchedBlock>) -> bool {
    forall|i: int|
        0 <= i < fetched.len() ==> (#[trigger] fetched[i]).digest@ == digest_of(fetched[i].bytes@)
}

/// Every digest the transfer cites is held by the sink or was fetched.
pub open spec fn covers(blocks: Seq<Block>, ds: Seq<HashDigest>, fetched: Seq<FetchedBlock>) -> bool {
    forall|l: int|
        0 <= l < ds.len() ==> has_block(blocks, (#[trigger] ds[l])@) || exists|i: int|
            0 <= i < fetched.len() && (#[trigger] fetched[i]).digest@ == ds[l]@
}

/// No fetched block disagrees with a stored block of the same digest.
pub open spec fn no_mix(blocks: Seq<Block>, fetched: Seq<FetchedBlock>) -> bool {
    forall|i: int|
        0 <= i < fetched.len() ==> (block_for(
            blocks,
            (#[trigger] fetched[i]).digest@,
        ) matches Some(b) ==> b.bytes@ == fetched[i].bytes@)
}

/// No two fetched blocks disagree under one digest.
pub open spec fn fetched_pairwise(fetched: Seq<FetchedBlock>) -> bool {
    forall|i: int, j: int|
        0 <= i < j < fetched.len() && (#[trigger] fetched[i]).digest@ == (
        #[trigger] fetched[j]).digest@ ==> fetched[i].bytes@ == fetched[j].bytes@
}

/// No fetched block is longer than a block may be.
pub open spec fn fetched_sized(fetched: Seq<FetchedBlock>) -> bool {
    forall|i: int| 0 <= i < fetched.len() ==> (#[trigger] fetched[i]).bytes@.len() <= MAX_BLOCK_SIZE
}

/// The conditions under which a transfer applied against the state `pre` is
/// owed success: the fetched blocks are genuine (digest of their bytes),
/// within the size bound, complete for the cited digests, in agreement with
/// the store and each other, and the id space is not exhausted.
pub open spec fn transfer_ready(pre: IndexTransaction, t: FileTransfer, bs: Seq<FetchedBlock>) -> bool {
    &&& fetched_valid(bs)
    &&& fetched_sized(bs)
    &&& covers(pre.blocks@, t.digests@, bs)
    &&& no_mix(pre.blocks@, bs)
    &&& fetched_pairwise(bs)
    &&& !(entry_for(pre.files@, t.path@) is None && pre.next_file_id == u64::MAX)
}

/// Whether a fetched block with digest `d` is in `fetched`.
fn fetched_in(fetched: &Vec<FetchedBlock>, d: &HashDigest) -> (r: bool)
    ensures
        r == exists|i: int| 0 <= i < fetched@.len() && (#[trigger] fetched@[i]).digest@ == d@,
{
    let n = fetched.len();
    let mut i: usize = 0;
    while i < n
        invariant
            i <= n == fetched@.len(),
            forall|x: int| 0 <= x < i ==> (#[trigger] fetched@[x]).digest@ != d@,
        decreases n - i,
    {
        if bytes_eq(&fetched[i].digest.bytes, &d.bytes) {
            return true;
        }
        i += 1;
    }
    false
}

/// Materialize one planned transfer at the sink from the blocks fetched for
/// it. The fetched data is checked before anything is written: every block's
/// digest is recomputed, blocks may not disagree with the store or each
/// other, and every cited digest must be resolvable; a failed call leaves the
/// transaction exactly as it was, so one file's bad transfer cannot corrupt
/// or lose any other file's state.
#[verifier::loop_isolation(false)]
#[verifier::rlimit(100)]
pub fn apply_transfer(
    tx: &mut IndexTransaction,
    t: &FileTransfer,
    fetched: &Vec<FetchedBlock>,
) -> (r: Result<(), Error>)
    requires
        old(tx).wf(),
    ensures
        final(tx).wf(),
        r matches Err(_) ==> *final(tx) == *old(tx),
        r is Ok ==> {
            &&& (entry_for(final(tx).files@, t.path@) matches Some(e) && digests_match(
                e.digests@,
                t.digests@,
            ) && e.size == t.size && e.mtime == t.mtime)
            &&& forall|p: Seq<u8>|
                p != t.path@ ==> #[trigger] entry_for(final(tx).files@, p) == entry_for(
                    old(tx).files@,
                    p,
                )
            &&& forall|j: int|
                0 <= j < old(tx).blocks@.len() && total_refs(
                    final(tx).files@,
                    (#[trigger] old(tx).blocks@[j]).digest@,
                ) > 0 ==> block_for(final(tx).blocks@, old(tx).blocks@[j].digest@) == Some(
                    old(tx).blocks@[j],
                )
        },
        transfer_ready(*old(tx), *t, fetched@) ==> r is Ok,
{
    let n = fetched.len();
    // The transport is not trusted: recompute every digest, bound every size.
    let mut i: usize = 0;
    while i < n
        invariant
            *tx == *old(tx),
            i <= n == fetched@.len(),
            forall|x: int|
                0 <= x < i ==> (#[trigger] fetched@[x]).digest@ == digest_of(fetched@[x].bytes@),
            forall|x: int|
                0 <= x < i ==> (#[trigger] fetched@[x]).bytes@.len() <= MAX_BLOCK_SIZE,
        decreases n - i,
    {
        if fetched[i].bytes.len() > MAX_BLOCK_SIZE {
            return Err(Error::Transport);
        }
        let h = compute_digest(&fetched[i].bytes);
        if !h.same(&fetched[i].digest) {
            return Err(Error::Transport);
        }
        i += 1;
    }
    // Refuse mixed contents under one digest, between fetched blocks ...
    let mut i: usize = 0;
    while i < n
        invariant
            *tx == *old(tx),
            i <= n == fetched@.len(),
            forall|a: int, b: int|
                0 <= a < b < n && a < i && (#[trigger] fetched@[a]).digest@ == (
                #[trigger] fetched@[b]).digest@ ==> fetched@[a].bytes@ == fetched@[b].bytes@,
        decreases n - i,
    {
        let mut j: usize = i + 1;
        while j < n
            invariant
                *tx == *old(tx),
                i < j <= n == fetched@.len(),
                forall|b: int|
                    i < b < j && (#[trigger] fetched@[i as int]).digest@ == (
                    #[trigger] fetched@[b]).digest@ ==> fetched@[i as int].bytes@
                        == fetched@[b].bytes@,
            decreases n - j,
        {
            if bytes_eq(&fetched[i].digest.bytes, &fetched[j].digest.bytes) {
                if !bytes_eq(&fetched[i].bytes, &fetched[j].bytes) {
                    return Err(Error::StorageCorrupt);
                }
            }
            j += 1;
        }
        i += 1;
    }
    // ... and against the store.
    let mut i: usize = 0;
    while i < n
        invariant
            *tx == *old(tx),
            i <= n == fetched@.len(),
            forall|x: int|
                0 <= x < i ==> (block_for(
                    old(tx).blocks@,
                    (#[trigger] fetched@[x]).digest@,
                ) matches Some(b) ==> b.bytes@ == fetched@[x].bytes@),
        decreases n - i,
    {
        match find_block_idx(&tx.blocks, &fetched[i].digest) {
            Some(bi) => {
                if !bytes_eq(&tx.blocks[bi].bytes, &fetched[i].bytes) {
                    return Err(Error::StorageCorrupt);
                }
            },
            None => {},
        }
        i += 1;
    }
    // Every cited digest must be resolvable before anything is written.
    let m = t.digests.len();
    let mut l: usize = 0;
    while l < m
        invariant
            *tx == *old(tx),
            l <= m == t.digests@.len(),
            forall|x: int|
                0 <= x < l ==> has_block(tx.blocks@, (#[trigger] t.digests@[x])@) || exists|i2: int|
                    0 <= i2 < fetched@.len() && (#[trigger] fetched@[i2]).digest@
                        == t.digests@[x]@,
        decreases m - l,
    {
        if !tx.contains_block(&t.digests[l]) {
            if !fetched_in(fetched, &t.digests[l]) {
                return Err(Error::Transport);
            }
        }
        l += 1;
    }
    // Write: cited blocks come from the store or from the fetched supply.
    let mut supply: Vec<Block> = Vec::new();
    let mut i: usize = 0;
    while i < n
        invariant
            *tx == *old(tx),
            i <= n == fetched@.len(),
            fetched_valid(fetched@),
            supply@.len() == i,
            fetched_sized(fetched@),
            forall|x: int|
                0 <= x < i ==> (#[trigger] supply@[x]).digest@ == fetched@[x].digest@
                    && supply@[x].bytes@ == fetched@[x].bytes@,
            forall|x: int|
                0 <= x < i ==> (#[trigger] supply@[x]).digest@ == digest_of(supply@[x].bytes@),
            forall|x: int|
                0 <= x < i ==> (#[trigger] supply@[x]).bytes@.len() <= MAX_BLOCK_SIZE,
        decreases n - i,
    {
        let b = Block {
            digest: fetched[i].digest.duplicate(),
            bytes: clone_bytes(&fetched[i].bytes),
        };
        supply.push(b);
        i += 1;
    }
    let ds = clone_digests(&t.digests);
    let ghost sup0 = supply@;
    let ghost ds0 = ds@;
    proof {
        assert forall|l2: int| 0 <= l2 < ds0.len() implies has_block(
            old(tx).blocks@,
            (#[trigger] ds0[l2])@,
        ) || has_block(sup0, ds0[l2]@) by {
            assert(ds0[l2]@ == t.digests@[l2]@);
            if !has_block(old(tx).blocks@, ds0[l2]@) {
                let i2 = choose|i2: int|
                    0 <= i2 < fetched@.len() && (#[trigger] fetched@[i2]).digest@
                        == t.digests@[l2]@;
                assert(sup0[i2].digest@ == ds0[l2]@);
                lemma_block_for_exists(sup0, ds0[l2]@);
            }
        }
    }
    let res = tx.set_entry(&t.path, t.size, t.mtime, ds, supply);
    match res {
        Ok(_) => {
            proof {
                let e = entry_for(tx.files@, t.path@)->Some_0;
                assert(e.digests@ == ds0);
                assert(digests_match(e.digests@, t.digests@));
            }
            Ok(())
        },
        Err(e) => Err(e),
    }
}

/// Run the transfers of one pass against the sink, each file independently:
/// a file whose blocks could not be fetched (`None`) or whose transfer was
/// rejected is skipped, its sink entry left exactly as it was, and the
/// remaining files still complete. The first result says which transfers
/// were applied; the second is the trace of states the pass went through,
/// one per transfer, against which success is owed: a transfer whose fetched
/// blocks are ready (`transfer_ready`) for the state it sees is applied.
#[verifier::loop_isolation(false)]
#[verifier::rlimit(100)]
pub fn apply_sync(
    tx: &mut IndexTransaction,
    transfers: &Vec<FileTransfer>,
    fetched: &Vec<Option<Vec<FetchedBlock>>>,
) -> (r: (Vec<bool>, Ghost<Seq<IndexTransaction>>))
    requires
        old(tx).wf(),
        transfers@.len() == fetched@.len(),
        forall|a: int, b: int|
            0 <= a < b < transfers@.len() ==> (#[trigger] transfers@[a]).path@ != (
            #[trigger] transfers@[b]).path@,
    ensures
        final(tx).wf(),
        r.0@.len() == transfers@.len(),
        r.1@.len() == transfers@.len() + 1,
        r.1@[0] == *old(tx),
        r.1@[transfers@.len() as int] == *final(tx),
        // a skipped or rejected transfer changes nothing at all
        forall|t: int| 0 <= t < transfers@.len() && !r.0@[t] ==> r.1@[t + 1] == r.1@[t],
        // success is owed: ready fetched data is applied
        forall|t: int|
            0 <= t < transfers@.len() && ((#[trigger] fetched@[t]) matches Some(bs)
                && transfer_ready(r.1@[t], transfers@[t], bs@)) ==> r.0@[t],
        forall|t: int|
            0 <= t < transfers@.len() && r.0@[t] ==> (entry_for(
                final(tx).files@,
                (#[trigger] transfers@[t]).path@,
            ) matches Some(e) && digests_match(e.digests@, transfers@[t].digests@) && e.size
                == transfers@[t].size && e.mtime == transfers@[t].mtime),
        forall|t: int|
            0 <= t < transfers@.len() && !r.0@[t] ==> entry_for(
                final(tx).files@,
                (#[trigger] transfers@[t]).path@,
            ) == entry_for(old(tx).files@, transfers@[t].path@),
        forall|t: int| 0 <= t < transfers@.len() && (#[trigger] fetched@[t]) is None ==> !r.0@[t],
        forall|p: Seq<u8>|
            #![trigger entry_for(final(tx).files@, p)]
            (forall|t: int| 0 <= t < transfers@.len() ==> p != (#[trigger] transfers@[t]).path@)
                ==> entry_for(final(tx).files@, p) == entry_for(old(tx).files@, p),
{
    let ghost files0 = old(tx).files@;
    let ghost mut states: Seq<IndexTransaction> = seq![*tx];
    let n = transfers.len();
    let mut r: Vec<bool> = Vec::new();
    let mut t: usize = 0;
    while t < n
        invariant
            tx.wf(),
            t <= n == transfers@.len() == fetched@.len(),
            r@.len() == t,
            states.len() == t + 1,
            states[0] == *old(tx),
            states[t as int] == *tx,
            forall|t2: int| 0 <= t2 < t && !r@[t2] ==> states[t2 + 1] == states[t2],
            forall|t2: int|
                0 <= t2 < t && ((#[trigger] fetched@[t2]) matches Some(bs) && transfer_ready(
                    states[t2],
                    transfers@[t2],
                    bs@,
                )) ==> r@[t2],
            forall|t2: int|
                0 <= t2 < t && r@[t2] ==> (entry_for(
                    tx.files@,
                    (#[trigger] transfers@[t2]).path@,
                ) matches Some(e) && digests_match(e.digests@, transfers@[t2].digests@) && e.size
                    == transfers@[t2].size && e.mtime == transfers@[t2].mtime),
            forall|t2: int|
                0 <= t2 < t && !r@[t2] ==> entry_for(
                    tx.files@,
                    (#[trigger] transfers@[t2]).path@,
                ) == entry_for(files0, transfers@[t2].path@),
            forall|t2: int| 0 <= t2 < t && (#[trigger] fetched@[t2]) is None ==> !r@[t2],
            forall|p: Seq<u8>|
                #![trigger entry_for(tx.files@, p)]
                (forall|t2: int| 0 <= t2 < t ==> p != (#[trigger] transfers@[t2]).path@)
                    ==> entry_for(tx.files@, p) == entry_for(files0, p),
        decreases n - t,
    {
        let ghost pre = *tx;
        let ok: bool;
        match &fetched[t] {
            None => {
                ok = false;
            },
            Some(blocks) => {
                match apply_transfer(tx, &transfers[t], blocks) {
                    Ok(_) => {
                        ok = true;
                    },
                    Err(_) => {
                        ok = false;
                    },
                }
            },
        }
        r.push(ok);
        proof {
            states = states.push(*tx);
            assert(states[t + 1] == *tx);
            assert(states[t as int] == pre);
            assert forall|t2: int|
                0 <= t2 < t + 1 && r@[t2] implies (entry_for(
                tx.files@,
                (#[trigger] transfers@[t2]).path@,
            ) matches Some(e) && digests_match(e.digests@, transfers@[t2].digests@) && e.size
                == transfers@[t2].size && e.mtime == transfers@[t2].mtime) by {
                if t2 < t {
                    assert(transfers@[t2].path@ != transfers@[t as int].path@);
                    assert(entry_for(tx.files@, transfers@[t2].path@) == entry_for(
                        pre.files@,
                        transfers@[t2].path@,
                    ));
                }
            }
            assert forall|t2: int|
                0 <= t2 < t + 1 && !r@[t2] implies entry_for(
                tx.files@,
                (#[trigger] transfers@[t2]).path@,
            ) == entry_for(files0, transfers@[t2].path@) by {
                if t2 < t {
                    assert(transfers@[t2].path@ != transfers@[t as int].path@);
                    assert(entry_for(tx.files@, transfers@[t2].path@) == entry_for(
                        pre.files@,
                        transfers@[t2].path@,
                    ));
                }
            }
            assert forall|p: Seq<u8>|
                #![trigger entry_for(tx.files@, p)]
                (forall|t2: int| 0 <= t2 < t + 1 ==> p != (
                #[trigger] transfers@[t2]).path@) implies entry_for(tx.files@, p) == entry_for(
                files0,
                p,
            ) by {
                assert(p != transfers@[t as int].path@);
                assert(entry_for(tx.files@, p) == entry_for(pre.files@, p));
            }
        }
        t += 1;
    }
    (r, Ghost(states))
}

/// After a pass in which every source file that needed a transfer had one
/// planned faithfully and every transfer was applied, the sink maps each
/// source path to exactly the source's digest sequence and metadata — and
/// therefore needs no further transfer for any of them: re-running the sync
/// plans nothing.
pub proof fn lemma_sync_converges(
    source: Seq<SourceFile>,
    pre: IndexTransaction,
    post: IndexTransaction,
    transfers: Seq<FileTransfer>,
    oks: Seq<bool>,
)
    requires
        transfers.len() == oks.len(),
        forall|a: int, b: int|
            0 <= a < b < source.len() ==> (#[trigger] source[a]).path@ != (
            #[trigger] source[b]).path@,
        forall|t: int|
            0 <= t < transfers.len() ==> exists|s: int|
                0 <= s < source.len() && needs_transfer(#[trigger] source[s], pre.files@)
                    && transfer_of(#[trigger] transfers[t], source[s], pre.blocks@),
        forall|s: int|
            0 <= s < source.len() && needs_transfer(#[trigger] source[s], pre.files@) ==> exists|
                t: int,
            | 0 <= t < transfers.len() && transfer_of(#[trigger] transfers[t], source[s], pre.blocks@),
        forall|t: int| 0 <= t < oks.len() ==> #[trigger] oks[t],
        forall|t: int|
            0 <= t < transfers.len() && oks[t] ==> (entry_for(
                post.files@,
                (#[trigger] transfers[t]).path@,
            ) matches Some(e) && digests_match(e.digests@, transfers[t].digests@) && e.size
                == transfers[t].size && e.mtime == transfers[t].mtime),
        forall|p: Seq<u8>|
            #![trigger entry_for(post.files@, p)]
            (forall|t: int| 0 <= t < transfers.len() ==> p != (#[trigger] transfers[t]).path@)
                ==> entry_for(post.files@, p) == entry_for(pre.files@, p),
    ensures
        forall|s: int|
            0 <= s < source.len() ==> (entry_for(
                post.files@,
                (#[trigger] source[s]).path@,
            ) matches Some(e) && digests_match(e.digests@, source[s].digests@) && e.size
                == source[s].size && e.mtime == source[s].mtime),
        forall|s: int| 0 <= s < source.len() ==> !needs_transfer(#[trigger] source[s], post.files@),
{
    assert forall|s: int| 0 <= s < source.len() implies (entry_for(
        post.files@,
        (#[trigger] source[s]).path@,
    ) matches Some(e) && digests_match(e.digests@, source[s].digests@) && e.size == source[s].size
        && e.mtime == source[s].mtime) by {
        let p = source[s].path@;
        if exists|t: int| 0 <= t < transfers.len() && (#[trigger] transfers[t]).path@ == p {
            let t = choose|t: int| 0 <= t < transfers.len() && (#[trigger] transfers[t]).path@ == p;
            assert(oks[t]);
            let s2 = choose|s2: int|
                0 <= s2 < source.len() && needs_transfer(#[trigger] source[s2], pre.files@)
                    && transfer_of(transfers[t], source[s2], pre.blocks@);
            assert(source[s2].path@ == p);
            if s2 != s {
                if s2 < s {
                    assert(source[s2].path@ != source[s].path@);
                } else {
                    assert(source[s].path@ != source[s2].path@);
                }
            }
            assert(s2 == s);
            assert(digests_match(transfers[t].digests@, source[s].digests@));
            let e = entry_for(post.files@, p)->Some_0;
            assert(digests_match(e.digests@, transfers[t].digests@));
            assert forall|l: int| 0 <= l < e.digests@.len() implies (#[trigger] e.digests@[l])@
                == source[s].digests@[l]@ by {
                assert(e.digests@[l]@ == transfers[t].digests@[l]@);
            }
        } else {
            assert(entry_for(post.files@, p) == entry_for(pre.files@, p));
            if needs_transfer(source[s], pre.files@) {
                let t = choose|t: int|
                    0 <= t < transfers.len() && transfer_of(
                        #[trigger] transfers[t],
                        source[s],
                        pre.blocks@,
                    );
                assert(transfers[t].path@ == p);
                assert(false);
            }
            let e = entry_for(pre.files@, p)->Some_0;
            assert(digests_match(e.digests@, source[s].digests@));
        }
    }
    assert forall|s: int| 0 <= s < source.len() implies !needs_transfer(
        #[trigger] source[s],
        post.files@,
    ) by {
        let e = entry_for(post.files@, source[s].path@)->Some_0;
        assert(digests_match(e.digests@, source[s].digests@));
    }
}

} // verus!

verus! {

use crate::index::{
    entry_by_id, ids_unique, lemma_entry_by_id_exists, lemma_entry_for_exists,
    lemma_entry_for_index, paths_unique,
};

/// Whether `id` is one of the listed ids.
pub open spec fn id_listed(ids: Seq<u64>, id: u64) -> bool {
    exists|x: int| 0 <= x < ids.len() && #[trigger] ids[x] == id
}

/// Apply the deletions of a pass: remove every listed entry. Afterwards a
/// path maps to exactly what it mapped to before, except that entries whose
/// id was listed are gone — no entry is changed, only removed.
#[verifier::loop_isolation(false)]
#[verifier::rlimit(100)]
pub fn apply_deletions(tx: &mut IndexTransaction, ids: &Vec<u64>)
    requires
        old(tx).wf(),
    ensures
        final(tx).wf(),
        forall|p: Seq<u8>|
            #![trigger entry_for(final(tx).files@, p)]
            entry_for(final(tx).files@, p) == (match entry_for(old(tx).files@, p) {
                Some(e) => if id_listed(ids@, e.file_id) {
                    None
                } else {
                    Some(e)
                },
                None => None::<FileEntry>,
            }),
{
    let ghost files0 = old(tx).files@;
    let n = ids.len();
    let mut x: usize = 0;
    proof {
        assert(ids@.take(0) =~= Seq::<u64>::empty());
    }
    while x < n
        invariant
            tx.wf(),
            x <= n == ids@.len(),
            forall|p: Seq<u8>|
                #![trigger entry_for(tx.files@, p)]
                entry_for(tx.files@, p) == (match entry_for(files0, p) {
                    Some(e) => if id_listed(ids@.take(x as int), e.file_id) {
                        None
                    } else {
                        Some(e)
                    },
                    None => None::<FileEntry>,
                }),
        decreases n - x,
    {
        let ghost cur = *tx;
        let ghost id = ids@[x as int];
        let _ = tx.remove_file(ids[x]);
        proof {
            assert(ids@.take(x + 1) =~= ids@.take(x as int).push(id));
            assert forall|i2: u64| #[trigger] id_listed(ids@.take(x + 1), i2) == (id_listed(
                ids@.take(x as int),
                i2,
            ) || i2 == id) by {
                if id_listed(ids@.take(x + 1), i2) {
                    let x2 = choose|x2: int|
                        0 <= x2 < ids@.take(x + 1).len() && #[trigger] ids@.take(x + 1)[x2] == i2;
                    if x2 < x {
                        assert(ids@.take(x as int)[x2] == i2);
                    }
                } else {
                    if id_listed(ids@.take(x as int), i2) {
                        let x2 = choose|x2: int|
                            0 <= x2 < ids@.take(x as int).len() && #[trigger] ids@.take(
                                x as int,
                            )[x2] == i2;
                        assert(ids@.take(x + 1)[x2] == i2);
                    }
                    if i2 == id {
                        assert(ids@.take(x + 1)[x as int] == i2);
                    }
                }
            }
            match entry_by_id(cur.files@, id) {
                None => {
                    // nothing was removed; nothing held this id either
                    lemma_entry_by_id_exists(cur.files@, id);
                    assert forall|p: Seq<u8>|
                        #![trigger entry_for(tx.files@, p)]
                        entry_for(tx.files@, p) == (match entry_for(files0, p) {
                            Some(e) => if id_listed(ids@.take(x + 1), e.file_id) {
                                None
                            } else {
                                Some(e)
                            },
                            None => None::<FileEntry>,
                        }) by {
                        let eo = entry_for(files0, p);
                        if eo is Some {
                            let e = eo->Some_0;
                            if e.file_id == id && !id_listed(ids@.take(x as int), e.file_id) {
                                assert(entry_for(cur.files@, p) == Some(e));
                                lemma_entry_for_exists(cur.files@, p);
                                let j = choose|j: int|
                                    0 <= j < cur.files@.len() && #[trigger] cur.files@[j] == e
                                        && cur.files@[j].path@ == p;
                                assert(cur.files@[j].file_id == id);
                                assert(false);
                            }
                        }
                    }
                },
                Some(e0) => {
                    lemma_entry_by_id_exists(cur.files@, id);
                    let j = choose|j: int|
                        0 <= j < cur.files@.len() && #[trigger] cur.files@[j] == e0
                            && cur.files@[j].file_id == id;
                    assert forall|j2: int| 0 <= j2 < j implies (#[trigger] cur.files@[j2].path@)
                        != e0.path@ by {}
                    lemma_entry_for_index(cur.files@, e0.path@, j);
                    assert(entry_for(cur.files@, e0.path@) == Some(e0));
                    assert forall|p: Seq<u8>|
                        #![trigger entry_for(tx.files@, p)]
                        entry_for(tx.files@, p) == (match entry_for(files0, p) {
                            Some(e) => if id_listed(ids@.take(x + 1), e.file_id) {
                                None
                            } else {
                                Some(e)
                            },
                            None => None::<FileEntry>,
                        }) by {
                        if p == e0.path@ {
                            assert(entry_for(tx.files@, p) is None);
                        } else {
                            assert(entry_for(tx.files@, p) == entry_for(cur.files@, p));
                            let eo = entry_for(files0, p);
                            if eo is Some {
                                let e = eo->Some_0;
                                if e.file_id == id && !id_listed(
                                    ids@.take(x as int),
                                    e.file_id,
                                ) {
                                    assert(entry_for(cur.files@, p) == Some(e));
                                    lemma_entry_for_exists(cur.files@, p);
                                    let j3 = choose|j3: int|
                                        0 <= j3 < cur.files@.len() && #[trigger] cur.files@[j3]
                                            == e && cur.files@[j3].path@ == p;
                                    if j3 != j {
                                        assert(cur.files@[j3].file_id != cur.files@[j].file_id);
                                    }
                                    assert(false);
                                }
                            }
                        }
                    }
                },
            }
        }
        x += 1;
    }
    proof {
        assert(ids@.take(n as int) =~= ids@);
    }
}

/// After the deletions of a pass — planned completely against the sink and
/// applied — every sink path the source still has maps exactly as before,
/// and every sink path the source no longer has is gone: together with the
/// transfer side this makes the sink's map equal the source's, and a
/// re-planned pass both transfers and deletes nothing.
pub proof fn lemma_deletions_converge(
    source: Seq<SourceFile>,
    pre: IndexTransaction,
    post: IndexTransaction,
    ids: Seq<u64>,
)
    requires
        paths_unique(pre.files@),
        ids_unique(pre.files@),
        // the plan lists only stale entries ...
        forall|x: int|
            0 <= x < ids.len() ==> exists|j: int|
                0 <= j < pre.files@.len() && (#[trigger] ids[x]) == (
                #[trigger] pre.files@[j]).file_id && path_not_in(pre.files@[j].path@, source),
        // ... and all of them
        forall|j: int|
            0 <= j < pre.files@.len() && path_not_in((#[trigger] pre.files@[j]).path@, source)
                ==> exists|x: int| 0 <= x < ids.len() && #[trigger] ids[x]
                == pre.files@[j].file_id,
        // what applying the deletions left
        forall|p: Seq<u8>|
            #![trigger entry_for(post.files@, p)]
            entry_for(post.files@, p) == (match entry_for(pre.files@, p) {
                Some(e) => if id_listed(ids, e.file_id) {
                    None
                } else {
                    Some(e)
                },
                None => None::<FileEntry>,
            }),
    ensures
        forall|s: int|
            0 <= s < source.len() ==> #[trigger] entry_for(post.files@, source[s].path@)
                == entry_for(pre.files@, source[s].path@),
        forall|j: int|
            0 <= j < pre.files@.len() && path_not_in((#[trigger] pre.files@[j]).path@, source)
                ==> entry_for(post.files@, pre.files@[j].path@) is None,
        // with the transfer side this is the sink's whole map: any path the
        // source does not have maps to nothing
        forall|p: Seq<u8>|
            #![trigger entry_for(post.files@, p)]
            path_not_in(p, source) ==> entry_for(post.files@, p) is None,
{
    assert forall|p: Seq<u8>|
        #![trigger entry_for(post.files@, p)]
        path_not_in(p, source) implies entry_for(post.files@, p) is None by {
        if entry_for(post.files@, p) is Some {
            let e = entry_for(pre.files@, p)->Some_0;
            assert(entry_for(pre.files@, p) is Some && !id_listed(ids, e.file_id));
            lemma_entry_for_exists(pre.files@, p);
            let j = choose|j: int|
                0 <= j < pre.files@.len() && #[trigger] pre.files@[j] == e && pre.files@[j].path@
                    == p;
            assert(path_not_in(pre.files@[j].path@, source));
            let x = choose|x: int|
                0 <= x < ids.len() && #[trigger] ids[x] == pre.files@[j].file_id;
            assert(id_listed(ids, e.file_id));
            assert(false);
        }
    }
    assert forall|s: int| 0 <= s < source.len() implies #[trigger] entry_for(
        post.files@,
        source[s].path@,
    ) == entry_for(pre.files@, source[s].path@) by {
        let p = source[s].path@;
        let eo = entry_for(pre.files@, p);
        if eo is Some {
            let e = eo->Some_0;
            if id_listed(ids, e.file_id) {
                let x = choose|x: int| 0 <= x < ids.len() && #[trigger] ids[x] == e.file_id;
                let j = choose|j: int|
                    0 <= j < pre.files@.len() && ids[x] == (#[trigger] pre.files@[j]).file_id
                        && path_not_in(pre.files@[j].path@, source);
                lemma_entry_for_exists(pre.files@, p);
                let j2 = choose|j2: int|
                    0 <= j2 < pre.files@.len() && #[trigger] pre.files@[j2] == e
                        && pre.files@[j2].path@ == p;
                if j != j2 {
                    assert(pre.files@[j].file_id != pre.files@[j2].file_id);
                }
                assert(pre.files@[j].path@ == p);
                assert(!path_not_in(p, source));
                assert(false);
            }
        }
    }
    assert forall|j: int|
        0 <= j < pre.files@.len() && path_not_in(
            (#[trigger] pre.files@[j]).path@,
            source,
        ) implies entry_for(post.files@, pre.files@[j].path@) is None by {
        let p = pre.files@[j].path@;
        assert forall|j2: int| 0 <= j2 < j implies (#[trigger] pre.files@[j2].path@) != p by {}
        lemma_entry_for_index(pre.files@, p, j);
        assert(entry_for(pre.files@, p) == Some(pre.files@[j]));
    }
}

} // verus!
