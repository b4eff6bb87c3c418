//! The content-addressed store: path-to-file-entry and digest-to-block maps,
//! mutated only through a single-writer transaction that commits atomically.
//!
//! A block's reference count is the number of times file entries cite its
//! digest; a block is held exactly while that count is positive. The maps are
//! kept as vectors with uniqueness invariants; the spec functions below give
//! their mathematical reading.

use vstd::prelude::*;

use crate::chunker::MAX_BLOCK_SIZE;
use crate::digest::{HashDigest, compute_digest, digest_of};

verus! {

/// One indexed file: an opaque id, its relative path, the ordered digests of
/// its chunks (their concatenation reconstructs the file), and the metadata
/// used to skip re-chunking unchanged files.
pub struct FileEntry {
    pub file_id: u64,
    pub path: Vec<u8>,
    pub digests: Vec<HashDigest>,
    pub size: u64,
    pub mtime: u64,
}

/// One stored block: an immutable byte range identified by its digest.
pub struct Block {
    pub digest: HashDigest,
    pub bytes: Vec<u8>,
}

/// How many times the digest sequence `ds` cites the digest `d`.
pub open spec fn count_refs(ds: Seq<HashDigest>, d: Seq<u8>) -> nat
    decreases ds.len(),
{
    if ds.len() == 0 {
        0
    } else {
        (if ds.first()@ == d {
            1nat
        } else {
            0nat
        }) + count_refs(ds.drop_first(), d)
    }
}

/// The reference count of digest `d`: how many citations all file entries
/// together hold of it.
pub open spec fn total_refs(files: Seq<FileEntry>, d: Seq<u8>) -> nat
    decreases files.len(),
{
    if files.len() == 0 {
        0
    } else {
        count_refs(files.first().digests@, d) + total_refs(files.drop_first(), d)
    }
}

/// The entry stored under `path`, if any (the first match; paths are unique
/// in a well-formed store).
pub open spec fn entry_for(files: Seq<FileEntry>, path: Seq<u8>) -> Option<FileEntry>
    decreases files.len(),
{
    if files.len() == 0 {
        None
    } else if files.first().path@ == path {
        Some(files.first())
    } else {
        entry_for(files.drop_first(), path)
    }
}

/// The entry with the given file id, if any.
pub open spec fn entry_by_id(files: Seq<FileEntry>, id: u64) -> Option<FileEntry>
    decreases files.len(),
{
    if files.len() == 0 {
        None
    } else if files.first().file_id == id {
        Some(files.first())
    } else {
        entry_by_id(files.drop_first(), id)
    }
}

/// The block stored under digest `d`, if any.
pub open spec fn block_for(blocks: Seq<Block>, d: Seq<u8>) -> Option<Block>
    decreases blocks.len(),
{
    if blocks.len() == 0 {
        None
    } else if blocks.first().digest@ == d {
        Some(blocks.first())
    } else {
        block_for(blocks.drop_first(), d)
    }
}

/// Whether the store holds a block for digest `d`.
pub open spec fn has_block(blocks: Seq<Block>, d: Seq<u8>) -> bool {
    block_for(blocks, d) is Some
}

pub open spec fn paths_unique(files: Seq<FileEntry>) -> bool {
    forall|i: int, j: int|
        0 <= i < j < files.len() ==> (#[trigger] files[i].path@) != (#[trigger] files[j].path@)
}

pub open spec fn ids_unique(files: Seq<FileEntry>) -> bool {
    forall|i: int, j: int|
        0 <= i < j < files.len() ==> (#[trigger] files[i].file_id) != (#[trigger] files[j].file_id)
}

pub open spec fn digests_unique(blocks: Seq<Block>) -> bool {
    forall|i: int, j: int|
        0 <= i < j < blocks.len() ==> (#[trigger] blocks[i].digest@) != (
        #[trigger] blocks[j].digest@)
}

/// Well-formedness of the store: unique keys; every block's digest is the
/// digest of its bytes; no block is longer than `MAX_BLOCK_SIZE`; a block
/// exists if and only if some entry cites it.
pub open spec fn store_inv(files: Seq<FileEntry>, blocks: Seq<Block>) -> bool {
    &&& paths_unique(files)
    &&& ids_unique(files)
    &&& digests_unique(blocks)
    &&& forall|i: int|
        0 <= i < blocks.len() ==> (#[trigger] blocks[i].digest@) == digest_of(blocks[i].bytes@)
    &&& forall|i: int| 0 <= i < blocks.len() ==> (#[trigger] blocks[i]).bytes@.len() <= MAX_BLOCK_SIZE
    &&& forall|i: int| 0 <= i < blocks.len() ==> total_refs(files, #[trigger] blocks[i].digest@) > 0
    &&& forall|j: int, l: int|
        0 <= j < files.len() && 0 <= l < files[j].digests@.len() ==> has_block(
            blocks,
            (#[trigger] files[j].digests@[l])@,
        )
}

// ---------------------------------------------------------------------------
// Counting lemmas
// ---------------------------------------------------------------------------

pub proof fn lemma_count_refs_push(ds: Seq<HashDigest>, h: HashDigest, d: Seq<u8>)
    ensures
        count_refs(ds.push(h), d) == count_refs(ds, d) + (if h@ == d {
            1nat
        } else {
            0nat
        }),
    decreases ds.len(),
{
    if ds.len() == 0 {
        assert(ds.push(h).first() == h);
        assert(ds.push(h).drop_first() =~= Seq::<HashDigest>::empty());
        assert(count_refs(Seq::<HashDigest>::empty(), d) == 0);
    } else {
        assert(ds.push(h).first() == ds.first());
        assert(ds.push(h).drop_first() =~= ds.drop_first().push(h));
        lemma_count_refs_push(ds.drop_first(), h, d);
    }
}

pub proof fn lemma_count_refs_pos(ds: Seq<HashDigest>, d: Seq<u8>)
    ensures
        (count_refs(ds, d) > 0) <==> (exists|i: int| 0 <= i < ds.len() && (#[trigger] ds[i])@ == d),
    decreases ds.len(),
{
    if ds.len() > 0 {
        lemma_count_refs_pos(ds.drop_first(), d);
        if ds.first()@ == d {
            assert(ds[0]@ == d);
        } else {
            if count_refs(ds.drop_first(), d) > 0 {
                let i = choose|i: int|
                    0 <= i < ds.drop_first().len() && (#[trigger] ds.drop_first()[i])@ == d;
                assert(ds[i + 1]@ == d);
            }
            if exists|i: int| 0 <= i < ds.len() && (#[trigger] ds[i])@ == d {
                let i = choose|i: int| 0 <= i < ds.len() && (#[trigger] ds[i])@ == d;
                assert(i != 0);
                assert(ds.drop_first()[i - 1]@ == d);
            }
        }
    }
}

pub proof fn lemma_total_refs_push(files: Seq<FileEntry>, e: FileEntry, d: Seq<u8>)
    ensures
        total_refs(files.push(e), d) == total_refs(files, d) + count_refs(e.digests@, d),
    decreases files.len(),
{
    if files.len() == 0 {
        assert(files.push(e).first() == e);
        assert(files.push(e).drop_first() =~= Seq::<FileEntry>::empty());
        assert(total_refs(Seq::<FileEntry>::empty(), d) == 0);
    } else {
        assert(files.push(e).first() == files.first());
        assert(files.push(e).drop_first() =~= files.drop_first().push(e));
        lemma_total_refs_push(files.drop_first(), e, d);
    }
}

pub proof fn lemma_total_refs_remove(files: Seq<FileEntry>, i: int, d: Seq<u8>)
    requires
        0 <= i < files.len(),
    ensures
        total_refs(files.remove(i), d) == total_refs(files, d) - count_refs(files[i].digests@, d),
    decreases files.len(),
{
    if i == 0 {
        assert(files.remove(0) =~= files.drop_first());
    } else {
        assert(files.remove(i).first() == files.first());
        assert(files.remove(i).drop_first() =~= files.drop_first().remove(i - 1));
        lemma_total_refs_remove(files.drop_first(), i - 1, d);
        assert(files.drop_first()[i - 1] == files[i]);
    }
}

pub proof fn lemma_total_refs_pos(files: Seq<FileEntry>, d: Seq<u8>)
    ensures
        (total_refs(files, d) > 0) <==> (exists|j: int|
            0 <= j < files.len() && count_refs((#[trigger] files[j]).digests@, d) > 0),
    decreases files.len(),
{
    if files.len() > 0 {
        lemma_total_refs_pos(files.drop_first(), d);
        if count_refs(files.first().digests@, d) > 0 {
            assert(count_refs(files[0].digests@, d) > 0);
        } else {
            if total_refs(files.drop_first(), d) > 0 {
                let j = choose|j: int|
                    0 <= j < files.drop_first().len() && count_refs(
                        (#[trigger] files.drop_first()[j]).digests@,
                        d,
                    ) > 0;
                assert(count_refs(files[j + 1].digests@, d) > 0);
            }
            if exists|j: int|
                0 <= j < files.len() && count_refs((#[trigger] files[j]).digests@, d) > 0 {
                let j = choose|j: int|
                    0 <= j < files.len() && count_refs((#[trigger] files[j]).digests@, d) > 0;
                assert(j != 0);
                assert(count_refs(files.drop_first()[j - 1].digests@, d) > 0);
            }
        }
    }
}

pub proof fn lemma_total_refs_take(files: Seq<FileEntry>, j: int, d: Seq<u8>)
    requires
        0 <= j < files.len(),
    ensures
        total_refs(files.take(j + 1), d) == total_refs(files.take(j), d) + count_refs(
            files[j].digests@,
            d,
        ),
{
    assert(files.take(j + 1) =~= files.take(j).push(files[j]));
    lemma_total_refs_push(files.take(j), files[j], d);
}

// ---------------------------------------------------------------------------
// Lookup lemmas
// ---------------------------------------------------------------------------

pub proof fn lemma_entry_for_index(files: Seq<FileEntry>, path: Seq<u8>, i: int)
    requires
        0 <= i < files.len(),
        files[i].path@ == path,
        forall|j: int| 0 <= j < i ==> (#[trigger] files[j].path@) != path,
    ensures
        entry_for(files, path) == Some(files[i]),
    decreases files.len(),
{
    if i > 0 {
        assert(files[0].path@ != path);
        assert forall|j: int| 0 <= j < i - 1 implies (#[trigger] files.drop_first()[j].path@)
            != path by {
            assert(files.drop_first()[j] == files[j + 1]);
        }
        lemma_entry_for_index(files.drop_first(), path, i - 1);
        assert(files.drop_first()[i - 1] == files[i]);
    }
}

pub proof fn lemma_entry_for_none(files: Seq<FileEntry>, path: Seq<u8>)
    requires
        forall|j: int| 0 <= j < files.len() ==> (#[trigger] files[j].path@) != path,
    ensures
        entry_for(files, path) is None,
    decreases files.len(),
{
    if files.len() > 0 {
        assert forall|j: int|
            0 <= j < files.drop_first().len() implies (#[trigger] files.drop_first()[j].path@)
            != path by {
            assert(files.drop_first()[j] == files[j + 1]);
        }
        lemma_entry_for_none(files.drop_first(), path);
    }
}

/// `entry_for` returns some entry exactly when an index matches.
pub proof fn lemma_entry_for_exists(files: Seq<FileEntry>, path: Seq<u8>)
    ensures
        entry_for(files, path) is Some <==> exists|j: int|
            0 <= j < files.len() && (#[trigger] files[j].path@) == path,
        entry_for(files, path) matches Some(e) ==> exists|j: int|
            0 <= j < files.len() && #[trigger] files[j] == e && files[j].path@ == path,
    decreases files.len(),
{
    if files.len() > 0 {
        lemma_entry_for_exists(files.drop_first(), path);
        if files.first().path@ == path {
            assert(files[0].path@ == path);
        } else {
            if entry_for(files, path) is Some {
                let j = choose|j: int|
                    0 <= j < files.drop_first().len() && #[trigger] files.drop_first()[j]
                        == entry_for(files, path)->Some_0 && files.drop_first()[j].path@ == path;
                assert(files[j + 1] == entry_for(files, path)->Some_0);
            }
            if exists|j: int| 0 <= j < files.len() && (#[trigger] files[j].path@) == path {
                let j = choose|j: int| 0 <= j < files.len() && (#[trigger] files[j].path@) == path;
                assert(files.drop_first()[j - 1].path@ == path);
            }
        }
    }
}

pub proof fn lemma_entry_for_push(files: Seq<FileEntry>, e: FileEntry, path: Seq<u8>)
    ensures
        entry_for(files.push(e), path) == (if entry_for(files, path) is Some {
            entry_for(files, path)
        } else if e.path@ == path {
            Some(e)
        } else {
            None
        }),
    decreases files.len(),
{
    if files.len() == 0 {
        assert(files.push(e).first() == e);
        assert(files.push(e).drop_first() =~= Seq::<FileEntry>::empty());
    } else {
        assert(files.push(e).first() == files.first());
        assert(files.push(e).drop_first() =~= files.drop_first().push(e));
        lemma_entry_for_push(files.drop_first(), e, path);
    }
}

pub proof fn lemma_entry_for_remove(files: Seq<FileEntry>, i: int, path: Seq<u8>)
    requires
        0 <= i < files.len(),
        files[i].path@ != path,
    ensures
        entry_for(files.remove(i), path) == entry_for(files, path),
    decreases files.len(),
{
    if i == 0 {
        assert(files.remove(0) =~= files.drop_first());
    } else {
        assert(files.remove(i).first() == files.first());
        assert(files.remove(i).drop_first() =~= files.drop_first().remove(i - 1));
        lemma_entry_for_remove(files.drop_first(), i - 1, path);
        assert(files.drop_first()[i - 1] == files[i]);
    }
}

pub proof fn lemma_entry_by_id_index(files: Seq<FileEntry>, id: u64, i: int)
    requires
        0 <= i < files.len(),
        files[i].file_id == id,
        forall|j: int| 0 <= j < i ==> (#[trigger] files[j].file_id) != id,
    ensures
        entry_by_id(files, id) == Some(files[i]),
    decreases files.len(),
{
    if i > 0 {
        assert forall|j: int| 0 <= j < i - 1 implies (#[trigger] files.drop_first()[j].file_id)
            != id by {
            assert(files.drop_first()[j] == files[j + 1]);
        }
        lemma_entry_by_id_index(files.drop_first(), id, i - 1);
        assert(files.drop_first()[i - 1] == files[i]);
    }
}

/// `entry_by_id` returns some entry exactly when an index matches.
pub proof fn lemma_entry_by_id_exists(files: Seq<FileEntry>, id: u64)
    ensures
        entry_by_id(files, id) is Some <==> exists|j: int|
            0 <= j < files.len() && (#[trigger] files[j].file_id) == id,
        entry_by_id(files, id) matches Some(e) ==> exists|j: int|
            0 <= j < files.len() && #[trigger] files[j] == e && files[j].file_id == id,
    decreases files.len(),
{
    if files.len() > 0 {
        lemma_entry_by_id_exists(files.drop_first(), id);
        if files.first().file_id == id {
            assert(files[0].file_id == id);
        } else {
            if entry_by_id(files, id) is Some {
                let j = choose|j: int|
                    0 <= j < files.drop_first().len() && #[trigger] files.drop_first()[j]
                        == entry_by_id(files, id)->Some_0 && files.drop_first()[j].file_id == id;
                assert(files[j + 1] == entry_by_id(files, id)->Some_0);
            }
            if exists|j: int| 0 <= j < files.len() && (#[trigger] files[j].file_id) == id {
                let j = choose|j: int| 0 <= j < files.len() && (#[trigger] files[j].file_id) == id;
                assert(files.drop_first()[j - 1].file_id == id);
            }
        }
    }
}

pub proof fn lemma_entry_by_id_none(files: Seq<FileEntry>, id: u64)
    requires
        forall|j: int| 0 <= j < files.len() ==> (#[trigger] files[j].file_id) != id,
    ensures
        entry_by_id(files, id) is None,
    decreases files.len(),
{
    if files.len() > 0 {
        lemma_entry_by_id_none(files.drop_first(), id);
    }
}

pub proof fn lemma_block_for_index(blocks: Seq<Block>, d: Seq<u8>, i: int)
    requires
        0 <= i < blocks.len(),
        blocks[i].digest@ == d,
        forall|j: int| 0 <= j < i ==> (#[trigger] blocks[j].digest@) != d,
    ensures
        block_for(blocks, d) == Some(blocks[i]),
    decreases blocks.len(),
{
    if i > 0 {
        assert forall|j: int| 0 <= j < i - 1 implies (#[trigger] blocks.drop_first()[j].digest@)
            != d by {
            assert(blocks.drop_first()[j] == blocks[j + 1]);
        }
        lemma_block_for_index(blocks.drop_first(), d, i - 1);
        assert(blocks.drop_first()[i - 1] == blocks[i]);
    }
}

pub proof fn lemma_block_for_none(blocks: Seq<Block>, d: Seq<u8>)
    requires
        forall|j: int| 0 <= j < blocks.len() ==> (#[trigger] blocks[j].digest@) != d,
    ensures
        block_for(blocks, d) is None,
    decreases blocks.len(),
{
    if blocks.len() > 0 {
        assert forall|j: int|
            0 <= j < blocks.drop_first().len() implies (
        #[trigger] blocks.drop_first()[j].digest@) != d by {
            assert(blocks.drop_first()[j] == blocks[j + 1]);
        }
        lemma_block_for_none(blocks.drop_first(), d);
    }
}

/// A held block is an element of the store, at a unique position when the
/// store's digests are unique.
pub proof fn lemma_block_for_exists(blocks: Seq<Block>, d: Seq<u8>)
    ensures
        has_block(blocks, d) <==> exists|j: int|
            0 <= j < blocks.len() && (#[trigger] blocks[j].digest@) == d,
        block_for(blocks, d) matches Some(b) ==> exists|j: int|
            0 <= j < blocks.len() && #[trigger] blocks[j] == b && blocks[j].digest@ == d,
    decreases blocks.len(),
{
    if blocks.len() > 0 {
        lemma_block_for_exists(blocks.drop_first(), d);
        if blocks.first().digest@ == d {
            assert(blocks[0].digest@ == d);
        } else {
            if has_block(blocks, d) {
                let j = choose|j: int|
                    0 <= j < blocks.drop_first().len() && #[trigger] blocks.drop_first()[j]
                        == block_for(blocks, d)->Some_0 && blocks.drop_first()[j].digest@ == d;
                assert(blocks[j + 1] == block_for(blocks, d)->Some_0);
            }
            if exists|j: int| 0 <= j < blocks.len() && (#[trigger] blocks[j].digest@) == d {
                let j = choose|j: int| 0 <= j < blocks.len() && (#[trigger] blocks[j].digest@) == d;
                assert(blocks.drop_first()[j - 1].digest@ == d);
            }
        }
    }
}

pub proof fn lemma_block_for_push(blocks: Seq<Block>, b: Block, d: Seq<u8>)
    ensures
        block_for(blocks.push(b), d) == (if block_for(blocks, d) is Some {
            block_for(blocks, d)
        } else if b.digest@ == d {
            Some(b)
        } else {
            None
        }),
    decreases blocks.len(),
{
    if blocks.len() == 0 {
        assert(blocks.push(b).first() == b);
        assert(blocks.push(b).drop_first() =~= Seq::<Block>::empty());
        assert(block_for(Seq::<Block>::empty(), d) is None);
    } else {
        assert(blocks.push(b).first() == blocks.first());
        assert(blocks.push(b).drop_first() =~= blocks.drop_first().push(b));
        lemma_block_for_push(blocks.drop_first(), b, d);
    }
}

} // verus!

use crate::digest::{bytes_eq, clone_bytes};

verus! {

// ---------------------------------------------------------------------------
// Executable lookups
// ---------------------------------------------------------------------------

/// Position of the entry stored under `path`, if any.
#[verifier::spinoff_prover]
pub(crate) fn find_entry_idx(files: &Vec<FileEntry>, path: &Vec<u8>) -> (r: Option<usize>)
    ensures
        match r {
            Some(i) => i < files@.len() && files@[i as int].path@ == path@ && entry_for(
                files@,
                path@,
            ) == Some(files@[i as int]),
            None => entry_for(files@, path@) is None,
        },
{
    let n = files.len();
    let mut i: usize = 0;
    while i < n
        invariant
            i <= n == files@.len(),
            forall|j: int| 0 <= j < i ==> (#[trigger] files@[j].path@) != path@,
        decreases n - i,
    {
        if bytes_eq(&files[i].path, path) {
            proof {
                lemma_entry_for_index(files@, path@, i as int);
            }
            return Some(i);
        }
        i += 1;
    }
    proof {
        assert(i == n);
        assert forall|j: int| 0 <= j < files@.len() implies (#[trigger] files@[j].path@)
            != path@ by {}
        lemma_entry_for_none(files@, path@);
    }
    None
}

/// Position of the entry with the given file id, if any.
fn find_entry_by_id(files: &Vec<FileEntry>, id: u64) -> (r: Option<usize>)
    ensures
        match r {
            Some(i) => i < files@.len() && files@[i as int].file_id == id && entry_by_id(
                files@,
                id,
            ) == Some(files@[i as int]),
            None => entry_by_id(files@, id) is None,
        },
{
    let n = files.len();
    let mut i: usize = 0;
    while i < n
        invariant
            i <= n == files@.len(),
            forall|j: int| 0 <= j < i ==> (#[trigger] files@[j].file_id) != id,
        decreases n - i,
    {
        if files[i].file_id == id {
            proof {
                lemma_entry_by_id_index(files@, id, i as int);
            }
            return Some(i);
        }
        i += 1;
    }
    proof {
        lemma_entry_by_id_none(files@, id);
    }
    None
}

/// Position of the block stored under digest `d`, if any.
pub(crate) fn find_block_idx(blocks: &Vec<Block>, d: &HashDigest) -> (r: Option<usize>)
    ensures
        match r {
            Some(i) => i < blocks@.len() && blocks@[i as int].digest@ == d@ && block_for(
                blocks@,
                d@,
            ) == Some(blocks@[i as int]),
            None => block_for(blocks@, d@) is None,
        },
{
    let n = blocks.len();
    let mut i: usize = 0;
    while i < n
        invariant
            i <= n == blocks@.len(),
            forall|j: int| 0 <= j < i ==> (#[trigger] blocks@[j].digest@) != d@,
        decreases n - i,
    {
        if bytes_eq(&blocks[i].digest.bytes, &d.bytes) {
            proof {
                lemma_block_for_index(blocks@, d@, i as int);
            }
            return Some(i);
        }
        i += 1;
    }
    proof {
        lemma_block_for_none(blocks@, d@);
    }
    None
}

/// How many times the digest vector `ds` cites `d`.
fn count_in(ds: &Vec<HashDigest>, d: &HashDigest) -> (c: usize)
    ensures
        c == count_refs(ds@, d@),
{
    let n = ds.len();
    let mut c: usize = 0;
    let mut i: usize = 0;
    proof {
        assert(ds@.take(0) =~= Seq::<HashDigest>::empty());
    }
    while i < n
        invariant
            i <= n == ds@.len(),
            c <= i,
            c == count_refs(ds@.take(i as int), d@),
        decreases n - i,
    {
        proof {
            assert(ds@.take(i + 1) =~= ds@.take(i as int).push(ds@[i as int]));
            lemma_count_refs_push(ds@.take(i as int), ds@[i as int], d@);
        }
        if bytes_eq(&ds[i].bytes, &d.bytes) {
            c += 1;
        }
        i += 1;
    }
    proof {
        assert(ds@.take(n as int) =~= ds@);
    }
    c
}

/// Whether any file entry cites the digest `d`.
fn is_referenced(files: &Vec<FileEntry>, d: &HashDigest) -> (r: bool)
    ensures
        r == (total_refs(files@, d@) > 0),
{
    let n = files.len();
    let mut j: usize = 0;
    proof {
        lemma_total_refs_pos(files@, d@);
    }
    while j < n
        invariant
            j <= n == files@.len(),
            forall|k: int| 0 <= k < j ==> count_refs((#[trigger] files@[k]).digests@, d@) == 0,
        decreases n - j,
    {
        if count_in(&files[j].digests, d) > 0 {
            proof {
                lemma_total_refs_pos(files@, d@);
            }
            return true;
        }
        j += 1;
    }
    proof {
        lemma_total_refs_pos(files@, d@);
    }
    false
}

/// The reference count of `d`, capped at `u64::MAX` (the mathematical count
/// cannot be stored past that machine limit).
fn refcount_of(files: &Vec<FileEntry>, d: &HashDigest) -> (r: u64)
    ensures
        total_refs(files@, d@) <= u64::MAX ==> r == total_refs(files@, d@),
        r <= total_refs(files@, d@),
{
    let n = files.len();
    let mut acc: u64 = 0;
    let mut j: usize = 0;
    proof {
        assert(files@.take(0) =~= Seq::<FileEntry>::empty());
        assert(total_refs(Seq::<FileEntry>::empty(), d@) == 0);
    }
    while j < n
        invariant
            j <= n == files@.len(),
            total_refs(files@.take(j as int), d@) <= u64::MAX ==> acc == total_refs(
                files@.take(j as int),
                d@,
            ),
            acc <= total_refs(files@.take(j as int), d@),
        decreases n - j,
    {
        let c = count_in(&files[j].digests, d);
        proof {
            lemma_total_refs_take(files@, j as int, d@);
        }
        let c64: u64 = c as u64;
        if acc > u64::MAX - c64 {
            acc = u64::MAX;
        } else {
            acc = acc + c64;
        }
        j += 1;
    }
    proof {
        assert(files@.take(n as int) =~= files@);
    }
    acc
}

/// Drop every block that no file entry cites; keep the rest untouched and in
/// order. Restores the "a block exists iff its reference count is positive"
/// half of the store invariant after the file entries changed.
fn prune_blocks(files: &Vec<FileEntry>, blocks: Vec<Block>) -> (r: Vec<Block>)
    requires
        digests_unique(blocks@),
    ensures
        digests_unique(r@),
        forall|i: int|
            0 <= i < r@.len() ==> total_refs(files@, (#[trigger] r@[i]).digest@) > 0 && block_for(
                blocks@,
                r@[i].digest@,
            ) == Some(r@[i]),
        forall|j: int|
            0 <= j < blocks@.len() && total_refs(files@, (#[trigger] blocks@[j]).digest@) > 0
                ==> block_for(r@, blocks@[j].digest@) == Some(blocks@[j]),
{
    let ghost orig = blocks@;
    let mut blocks = blocks;
    let mut r: Vec<Block> = Vec::new();
    let ghost mut k: int = 0;
    while blocks.len() > 0
        invariant
            0 <= k <= orig.len(),
            blocks@ =~= orig.skip(k),
            digests_unique(orig),
            digests_unique(r@),
            forall|i: int|
                0 <= i < r@.len() ==> total_refs(files@, (#[trigger] r@[i]).digest@) > 0
                    && block_for(orig, r@[i].digest@) == Some(r@[i]),
            forall|j: int|
                0 <= j < k && total_refs(files@, (#[trigger] orig[j]).digest@) > 0 ==> block_for(
                    r@,
                    orig[j].digest@,
                ) == Some(orig[j]),
            forall|i: int|
                0 <= i < r@.len() ==> exists|j: int| 0 <= j < k && (#[trigger] r@[i]) == orig[j],
        decreases blocks@.len(),
    {
        let b = blocks.remove(0);
        proof {
            assert(b == orig[k]);
            assert(blocks@ =~= orig.skip(k + 1));
            assert forall|j: int| 0 <= j < k implies (#[trigger] orig[j].digest@) != b.digest@ by {}
        }
        if is_referenced(files, &b.digest) {
            proof {
                // the pushed block was not in r yet
                assert forall|i: int| 0 <= i < r@.len() implies (#[trigger] r@[i].digest@)
                    != b.digest@ by {
                    let j = choose|j: int| 0 <= j < k && (#[trigger] r@[i]) == orig[j];
                    assert(orig[j].digest@ != orig[k].digest@);
                }
                lemma_block_for_none(r@, b.digest@);
                lemma_block_for_index(orig, b.digest@, k);
                let r0 = r@;
                assert forall|j: int|
                    0 <= j < k + 1 && total_refs(files@, (#[trigger] orig[j]).digest@)
                        > 0 implies block_for(r0.push(b), orig[j].digest@) == Some(orig[j]) by {
                    lemma_block_for_push(r0, b, orig[j].digest@);
                }
                assert forall|i: int| 0 <= i < r0.push(b).len() implies total_refs(
                    files@,
                    (#[trigger] r0.push(b)[i]).digest@,
                ) > 0 && block_for(orig, r0.push(b)[i].digest@) == Some(r0.push(b)[i]) by {
                    if i < r0.len() {
                        assert(r0.push(b)[i] == r0[i]);
                    } else {
                        assert(r0.push(b)[i] == b);
                    }
                }
                assert forall|i: int| 0 <= i < r0.push(b).len() implies exists|j: int|
                    0 <= j < k + 1 && (#[trigger] r0.push(b)[i]) == orig[j] by {
                    if i < r0.len() {
                        assert(r0.push(b)[i] == r0[i]);
                        let j = choose|j: int| 0 <= j < k && (#[trigger] r0[i]) == orig[j];
                        assert(r0.push(b)[i] == orig[j]);
                    } else {
                        assert(r0.push(b)[i] == orig[k]);
                    }
                }
            }
            r.push(b);
        } else {
            proof {
                assert forall|j: int|
                    0 <= j < k + 1 && total_refs(files@, (#[trigger] orig[j]).digest@)
                        > 0 implies block_for(r@, orig[j].digest@) == Some(orig[j]) by {}
            }
        }
        proof {
            k = k + 1;
        }
    }
    proof {
        assert(k == orig.len());
    }
    r
}

} // verus!

use crate::Error;

verus! {

/// The scoped, single-writer mutation handle over an index: operations act on
/// this buffered state, and nothing is visible to readers of the index until
/// the transaction is committed back into it. Dropping the transaction
/// without committing discards every buffered change; note that only
/// `rollback` (or `commit`) clears the index's write flag, so a transaction
/// that is merely dropped leaves the index refusing further transactions.
pub struct IndexTransaction {
    pub files: Vec<FileEntry>,
    pub blocks: Vec<Block>,
    pub next_file_id: u64,
}

impl IndexTransaction {
    pub open spec fn wf(&self) -> bool {
        &&& store_inv(self.files@, self.blocks@)
        &&& forall|j: int|
            0 <= j < self.files@.len() ==> (#[trigger] self.files@[j].file_id) < self.next_file_id
    }
}

/// Whether the store already holds `path` with this size and mtime, in which
/// case indexing it again is a no-op.
pub open spec fn metadata_matches(
    files: Seq<FileEntry>,
    path: Seq<u8>,
    size: u64,
    mtime: u64,
) -> bool {
    entry_for(files, path) matches Some(e) && e.size == size && e.mtime == mtime
}

/// What storing an entry `path -> ds` leaves behind: the entry is upserted
/// (keeping its id if it existed), no other entry moves, every reference
/// count changes by exactly the difference between the old and new citation
/// counts, each cited digest resolves to the already-stored block or to the
/// supplied one, surviving blocks are untouched, and no unreferenced or
/// unrelated block remains.
pub open spec fn upsert_post(
    pre: IndexTransaction,
    post: IndexTransaction,
    path: Seq<u8>,
    size: u64,
    mtime: u64,
    ds: Seq<HashDigest>,
    supply: Seq<Block>,
) -> bool {
    let files0 = pre.files@;
    let blocks0 = pre.blocks@;
    let files1 = post.files@;
    let blocks1 = post.blocks@;
    &&& (entry_for(files1, path) matches Some(e) && {
        &&& e.path@ == path
        &&& e.size == size
        &&& e.mtime == mtime
        &&& e.digests@ == ds
        &&& match entry_for(files0, path) {
            Some(e0) => e.file_id == e0.file_id && post.next_file_id == pre.next_file_id,
            None => e.file_id == pre.next_file_id && post.next_file_id == pre.next_file_id + 1,
        }
    })
    &&& forall|p: Seq<u8>| p != path ==> #[trigger] entry_for(files1, p) == entry_for(files0, p)
    &&& forall|d: Seq<u8>|
        #[trigger] total_refs(files1, d) == total_refs(files0, d) - (match entry_for(
            files0,
            path,
        ) {
            Some(e0) => count_refs(e0.digests@, d),
            None => 0nat,
        }) + count_refs(ds, d)
    &&& forall|l: int|
        0 <= l < ds.len() ==> #[trigger] block_for(blocks1, ds[l]@) == (if has_block(
            blocks0,
            ds[l]@,
        ) {
            block_for(blocks0, ds[l]@)
        } else {
            block_for(supply, ds[l]@)
        })
    &&& forall|j: int|
        0 <= j < blocks0.len() && total_refs(files1, (#[trigger] blocks0[j]).digest@) > 0
            ==> block_for(blocks1, blocks0[j].digest@) == Some(blocks0[j])
    &&& forall|j: int|
        0 <= j < blocks1.len() ==> total_refs(files1, (#[trigger] blocks1[j]).digest@) > 0 && (
        has_block(blocks0, blocks1[j].digest@) || count_refs(ds, blocks1[j].digest@) > 0)
}

/// Whether `e` is one of the entries of `files`.
pub open spec fn entry_among(files: Seq<FileEntry>, e: FileEntry) -> bool {
    exists|j0: int| 0 <= j0 < files.len() && e == #[trigger] files[j0]
}

/// Facts about removing the entry at position `i` from a well-formed file
/// list.
#[verifier::spinoff_prover]
proof fn lemma_files_remove_facts(files0: Seq<FileEntry>, i: int)
    requires
        paths_unique(files0),
        ids_unique(files0),
        0 <= i < files0.len(),
    ensures
        paths_unique(files0.remove(i)),
        ids_unique(files0.remove(i)),
        forall|j: int|
            0 <= j < files0.remove(i).len() ==> (#[trigger] files0.remove(i)[j].path@)
                != files0[i].path@,
        forall|j: int|
            0 <= j < files0.remove(i).len() ==> (#[trigger] files0.remove(i)[j].file_id)
                != files0[i].file_id,
        forall|p: Seq<u8>|
            p != files0[i].path@ ==> #[trigger] entry_for(files0.remove(i), p) == entry_for(
                files0,
                p,
            ),
        forall|d: Seq<u8>|
            #[trigger] total_refs(files0.remove(i), d) == total_refs(files0, d) - count_refs(
                files0[i].digests@,
                d,
            ),
        forall|j: int|
            0 <= j < files0.remove(i).len() ==> entry_among(
                files0,
                #[trigger] files0.remove(i)[j],
            ),
{
    let rm = files0.remove(i);
    files0.remove_ensures(i);
    assert forall|j: int| 0 <= j < files0.remove(i).len() implies entry_among(
        files0,
        #[trigger] files0.remove(i)[j],
    ) by {
        if j < i {
            assert(files0.remove(i)[j] == files0[j]);
        } else {
            assert(files0.remove(i)[j] == files0[j + 1]);
        }
    }
    assert forall|j: int|
        0 <= j < files0.remove(i).len() implies (#[trigger] files0.remove(i)[j].path@)
        != files0[i].path@ && (#[trigger] files0.remove(i)[j].file_id) != files0[i].file_id by {
        if j < i {
            assert(files0.remove(i)[j] == files0[j]);
            assert(files0[j].path@ != files0[i].path@);
            assert(files0[j].file_id != files0[i].file_id);
        } else {
            assert(files0.remove(i)[j] == files0[j + 1]);
            assert(files0[j + 1].path@ != files0[i].path@);
            assert(files0[j + 1].file_id != files0[i].file_id);
        }
    }
    assert forall|a: int, b: int| 0 <= a < b < rm.len() implies (#[trigger] rm[a].path@) != (
    #[trigger] rm[b].path@) && rm[a].file_id != rm[b].file_id by {
        let a0: int = if a < i {
            a
        } else {
            a + 1
        };
        let b0: int = if b < i {
            b
        } else {
            b + 1
        };
        assert(rm[a] == files0[a0]);
        assert(rm[b] == files0[b0]);
    }
    assert forall|p: Seq<u8>| p != files0[i].path@ implies #[trigger] entry_for(rm, p)
        == entry_for(files0, p) by {
        lemma_entry_for_remove(files0, i, p);
    }
    assert forall|d: Seq<u8>| #[trigger] total_refs(rm, d) == total_refs(files0, d) - count_refs(
        files0[i].digests@,
        d,
    ) by {
        lemma_total_refs_remove(files0, i, d);
    }
}

impl IndexTransaction {
    /// Insert every supplied block whose digest the store does not hold yet;
    /// blocks already held stay as they are.
    fn insert_supply(&mut self, supply: Vec<Block>)
        requires
            digests_unique(old(self).blocks@),
            forall|i: int|
                0 <= i < old(self).blocks@.len() ==> (#[trigger] old(self).blocks@[i].digest@)
                    == digest_of(old(self).blocks@[i].bytes@),
            forall|i: int|
                0 <= i < supply@.len() ==> (#[trigger] supply@[i]).digest@ == digest_of(
                    supply@[i].bytes@,
                ),
            forall|i: int|
                0 <= i < old(self).blocks@.len() ==> (#[trigger] old(self).blocks@[i]).bytes@.len()
                    <= MAX_BLOCK_SIZE,
            forall|i: int|
                0 <= i < supply@.len() ==> (#[trigger] supply@[i]).bytes@.len() <= MAX_BLOCK_SIZE,
        ensures
            final(self).files@ == old(self).files@,
            final(self).next_file_id == old(self).next_file_id,
            digests_unique(final(self).blocks@),
            forall|i: int|
                0 <= i < final(self).blocks@.len() ==> (#[trigger] final(self).blocks@[i].digest@)
                    == digest_of(final(self).blocks@[i].bytes@),
            forall|i: int|
                0 <= i < final(self).blocks@.len() ==> (#[trigger] final(self).blocks@[i]).bytes@.len() <= MAX_BLOCK_SIZE,
            forall|d: Seq<u8>|
                #[trigger] block_for(final(self).blocks@, d) == (if has_block(
                    old(self).blocks@,
                    d,
                ) {
                    block_for(old(self).blocks@, d)
                } else {
                    block_for(supply@, d)
                }),
    {
        let ghost blocks0 = self.blocks@;
        let ghost files0 = self.files@;
        let ghost nf0 = self.next_file_id;
        let mut supply = supply;
        let ghost sup0 = supply@;
        let ghost mut k: int = 0;
        proof {
            assert forall|d: Seq<u8>| #[trigger] block_for(self.blocks@, d) == (if has_block(
                blocks0,
                d,
            ) {
                block_for(blocks0, d)
            } else {
                block_for(sup0.take(0), d)
            }) by {
                assert(sup0.take(0) =~= Seq::<Block>::empty());
            }
        }
        while supply.len() > 0
            invariant
                0 <= k <= sup0.len(),
                supply@ =~= sup0.skip(k),
                self.files@ == files0,
                self.next_file_id == nf0,
                forall|i: int|
                    0 <= i < sup0.len() ==> (#[trigger] sup0[i]).digest@ == digest_of(
                        sup0[i].bytes@,
                    ),
                forall|i: int|
                    0 <= i < sup0.len() ==> (#[trigger] sup0[i]).bytes@.len() <= MAX_BLOCK_SIZE,
                digests_unique(self.blocks@),
                forall|i: int|
                    0 <= i < self.blocks@.len() ==> (#[trigger] self.blocks@[i].digest@)
                        == digest_of(self.blocks@[i].bytes@),
                forall|i: int|
                    0 <= i < self.blocks@.len() ==> (#[trigger] self.blocks@[i]).bytes@.len()
                        <= MAX_BLOCK_SIZE,
                forall|d: Seq<u8>|
                    #[trigger] block_for(self.blocks@, d) == (if has_block(blocks0, d) {
                        block_for(blocks0, d)
                    } else {
                        block_for(sup0.take(k), d)
                    }),
            decreases supply@.len(),
        {
            let ghost cur = self.blocks@;
            let b = supply.remove(0);
            proof {
                assert(b == sup0[k]);
                assert(supply@ =~= sup0.skip(k + 1));
                assert(sup0.take(k + 1) =~= sup0.take(k).push(b));
            }
            match find_block_idx(&self.blocks, &b.digest) {
                Some(_) => {
                    proof {
                        assert forall|d: Seq<u8>| #[trigger] block_for(self.blocks@, d) == (
                        if has_block(blocks0, d) {
                            block_for(blocks0, d)
                        } else {
                            block_for(sup0.take(k + 1), d)
                        }) by {
                            lemma_block_for_push(sup0.take(k), b, d);
                        }
                    }
                },
                None => {
                    proof {
                        let cur1 = cur.push(b);
                        assert forall|d: Seq<u8>| #[trigger] block_for(cur1, d) == (if has_block(
                            blocks0,
                            d,
                        ) {
                            block_for(blocks0, d)
                        } else {
                            block_for(sup0.take(k + 1), d)
                        }) by {
                            lemma_block_for_push(cur, b, d);
                            lemma_block_for_push(sup0.take(k), b, d);
                        }
                        assert forall|i: int, j: int| 0 <= i < j < cur1.len() implies (
                        #[trigger] cur1[i].digest@) != (#[trigger] cur1[j].digest@) by {
                            if j < cur.len() {
                                assert(cur1[i] == cur[i] && cur1[j] == cur[j]);
                            } else {
                                assert(cur1[j] == b);
                                assert(cur1[i] == cur[i]);
                                if cur[i].digest@ == b.digest@ {
                                    lemma_block_for_exists(cur, b.digest@);
                                }
                            }
                        }
                        assert forall|i: int| 0 <= i < cur1.len() implies (
                        #[trigger] cur1[i].digest@) == digest_of(cur1[i].bytes@) && (
                        #[trigger] cur1[i]).bytes@.len() <= MAX_BLOCK_SIZE by {
                            if i < cur.len() {
                                assert(cur1[i] == cur[i]);
                            } else {
                                assert(cur1[i] == b);
                            }
                        }
                    }
                    self.blocks.push(b);
                },
            }
            proof {
                k = k + 1;
            }
        }
        proof {
            assert(sup0.take(k) =~= sup0);
        }
    }
}

} // verus!

verus! {

/// The heart of the upsert proof: after the old entry under `path` was
/// removed (leaving `files_rm`), the supplied blocks were merged over
/// `blocks0` (giving `cur`), the new entry `e` was appended, and the
/// unreferenced blocks were pruned (giving `blocks1`), the store is
/// well-formed again and every clause of the upsert contract holds.
#[verifier::rlimit(100)]
proof fn lemma_finish_upsert(
    files0: Seq<FileEntry>,
    files_rm: Seq<FileEntry>,
    e: FileEntry,
    blocks0: Seq<Block>,
    sup0: Seq<Block>,
    cur: Seq<Block>,
    blocks1: Seq<Block>,
    path: Seq<u8>,
    next1: u64,
)
    requires
        store_inv(files0, blocks0),
        paths_unique(files_rm),
        ids_unique(files_rm),
        forall|j: int| 0 <= j < files_rm.len() ==> (#[trigger] files_rm[j].path@) != path,
        forall|j: int| 0 <= j < files_rm.len() ==> (#[trigger] files_rm[j].file_id) != e.file_id,
        forall|j: int| 0 <= j < files_rm.len() ==> (#[trigger] files_rm[j].file_id) < next1,
        forall|j: int|
            0 <= j < files_rm.len() ==> entry_among(files0, #[trigger] files_rm[j]),
        e.path@ == path,
        e.file_id < next1,
        forall|i: int|
            0 <= i < sup0.len() ==> (#[trigger] sup0[i]).digest@ == digest_of(sup0[i].bytes@),
        forall|l: int|
            0 <= l < e.digests@.len() ==> has_block(blocks0, (#[trigger] e.digests@[l])@)
                || has_block(sup0, e.digests@[l]@),
        digests_unique(cur),
        forall|i: int|
            0 <= i < cur.len() ==> (#[trigger] cur[i].digest@) == digest_of(cur[i].bytes@),
        forall|i: int| 0 <= i < cur.len() ==> (#[trigger] cur[i]).bytes@.len() <= MAX_BLOCK_SIZE,
        forall|d: Seq<u8>|
            #[trigger] block_for(cur, d) == (if has_block(blocks0, d) {
                block_for(blocks0, d)
            } else {
                block_for(sup0, d)
            }),
        digests_unique(blocks1),
        forall|i: int|
            0 <= i < blocks1.len() ==> total_refs(files_rm.push(e), (#[trigger] blocks1[i]).digest@)
                > 0 && block_for(cur, blocks1[i].digest@) == Some(blocks1[i]),
        forall|j: int|
            0 <= j < cur.len() && total_refs(files_rm.push(e), (#[trigger] cur[j]).digest@) > 0
                ==> block_for(blocks1, cur[j].digest@) == Some(cur[j]),
    ensures
        store_inv(files_rm.push(e), blocks1),
        forall|j: int|
            0 <= j < files_rm.push(e).len() ==> (#[trigger] files_rm.push(e)[j].file_id) < next1,
        entry_for(files_rm.push(e), path) == Some(e),
        forall|p: Seq<u8>|
            p != path ==> #[trigger] entry_for(files_rm.push(e), p) == entry_for(files_rm, p),
        forall|d: Seq<u8>|
            #[trigger] total_refs(files_rm.push(e), d) == total_refs(files_rm, d) + count_refs(
                e.digests@,
                d,
            ),
        forall|l: int|
            0 <= l < e.digests@.len() ==> #[trigger] block_for(blocks1, e.digests@[l]@) == (
            if has_block(blocks0, e.digests@[l]@) {
                block_for(blocks0, e.digests@[l]@)
            } else {
                block_for(sup0, e.digests@[l]@)
            }),
        forall|j: int|
            0 <= j < blocks0.len() && total_refs(files_rm.push(e), (#[trigger] blocks0[j]).digest@)
                > 0 ==> block_for(blocks1, blocks0[j].digest@) == Some(blocks0[j]),
        forall|j: int|
            0 <= j < blocks1.len() ==> total_refs(files_rm.push(e), (#[trigger] blocks1[j]).digest@)
                > 0 && (has_block(blocks0, blocks1[j].digest@) || count_refs(
                e.digests@,
                blocks1[j].digest@,
            ) > 0),
{
    let files1 = files_rm.push(e);
    lemma_entry_for_none(files_rm, path);
    lemma_entry_for_push(files_rm, e, path);
    assert(entry_for(files1, path) == Some(e));
    assert forall|p: Seq<u8>| p != path implies #[trigger] entry_for(files1, p) == entry_for(
        files_rm,
        p,
    ) by {
        lemma_entry_for_push(files_rm, e, p);
    }
    assert forall|d: Seq<u8>| #[trigger] total_refs(files1, d) == total_refs(files_rm, d)
        + count_refs(e.digests@, d) by {
        lemma_total_refs_push(files_rm, e, d);
    }
    assert forall|a: int, b: int| 0 <= a < b < files1.len() implies (#[trigger] files1[a].path@)
        != (#[trigger] files1[b].path@) && files1[a].file_id != files1[b].file_id by {
        if b < files_rm.len() {
            assert(files1[a] == files_rm[a] && files1[b] == files_rm[b]);
        } else {
            assert(files1[b] == e);
            assert(files1[a] == files_rm[a]);
        }
    }
    assert forall|j: int| 0 <= j < files1.len() implies (#[trigger] files1[j].file_id) < next1 by {
        if j < files_rm.len() {
            assert(files1[j] == files_rm[j]);
        } else {
            assert(files1[j] == e);
        }
    }
    // every digest cited by any entry of files1 has a block in cur
    assert forall|j: int, l: int|
        0 <= j < files1.len() && 0 <= l < files1[j].digests@.len() implies has_block(
        cur,
        (#[trigger] files1[j].digests@[l])@,
    ) by {
        let d = files1[j].digests@[l]@;
        if j < files_rm.len() {
            assert(files1[j] == files_rm[j]);
            assert(entry_among(files0, files_rm[j]));
            let j0 = choose|j0: int| 0 <= j0 < files0.len() && files_rm[j] == #[trigger] files0[j0];
            assert(has_block(blocks0, files0[j0].digests@[l]@));
        } else {
            assert(files1[j] == e);
            if !has_block(blocks0, d) {
                assert(has_block(sup0, d));
            }
        }
    }
    // cited digests stay present after pruning
    assert forall|j: int, l: int|
        0 <= j < files1.len() && 0 <= l < files1[j].digests@.len() implies has_block(
        blocks1,
        (#[trigger] files1[j].digests@[l])@,
    ) by {
        let d = files1[j].digests@[l]@;
        lemma_count_refs_pos(files1[j].digests@, d);
        lemma_total_refs_pos(files1, d);
        assert(total_refs(files1, d) > 0);
        lemma_block_for_exists(cur, d);
        let j2 = choose|j2: int| 0 <= j2 < cur.len() && (#[trigger] cur[j2].digest@) == d;
        assert(block_for(blocks1, d) == Some(cur[j2]));
    }
    // block bytes stay tied to their digests and to the size bound
    assert forall|i: int| 0 <= i < blocks1.len() implies (#[trigger] blocks1[i].digest@)
        == digest_of(blocks1[i].bytes@) && (#[trigger] blocks1[i]).bytes@.len()
        <= MAX_BLOCK_SIZE by {
        lemma_block_for_exists(cur, blocks1[i].digest@);
        let j = choose|j: int|
            0 <= j < cur.len() && #[trigger] cur[j] == blocks1[i] && cur[j].digest@
                == blocks1[i].digest@;
    }
    // the new entry's digests resolve to the stored or supplied blocks
    assert forall|l: int| 0 <= l < e.digests@.len() implies #[trigger] block_for(
        blocks1,
        e.digests@[l]@,
    ) == (if has_block(blocks0, e.digests@[l]@) {
        block_for(blocks0, e.digests@[l]@)
    } else {
        block_for(sup0, e.digests@[l]@)
    }) by {
        let d = e.digests@[l]@;
        lemma_count_refs_pos(e.digests@, d);
        lemma_total_refs_pos(files1, d);
        assert(count_refs(e.digests@, d) > 0);
        assert(total_refs(files1, d) > 0);
        lemma_block_for_exists(cur, d);
        let j2 = choose|j2: int| 0 <= j2 < cur.len() && (#[trigger] cur[j2].digest@) == d;
        assert(block_for(blocks1, d) == Some(cur[j2]));
        lemma_block_for_index(cur, d, j2);
    }
    // surviving blocks are untouched
    assert forall|j: int|
        0 <= j < blocks0.len() && total_refs(files1, (#[trigger] blocks0[j]).digest@)
            > 0 implies block_for(blocks1, blocks0[j].digest@) == Some(blocks0[j]) by {
        let d = blocks0[j].digest@;
        assert forall|j1: int| 0 <= j1 < j implies (#[trigger] blocks0[j1].digest@) != d by {}
        lemma_block_for_index(blocks0, d, j);
        assert(block_for(cur, d) == Some(blocks0[j]));
        lemma_block_for_exists(cur, d);
        let j2 = choose|j2: int|
            0 <= j2 < cur.len() && #[trigger] cur[j2] == blocks0[j] && cur[j2].digest@ == d;
        assert(block_for(blocks1, d) == Some(cur[j2]));
    }
    // every remaining block is referenced and accounted for
    assert forall|j: int| 0 <= j < blocks1.len() implies total_refs(
        files1,
        (#[trigger] blocks1[j]).digest@,
    ) > 0 && (has_block(blocks0, blocks1[j].digest@) || count_refs(e.digests@, blocks1[j].digest@)
        > 0) by {
        let d = blocks1[j].digest@;
        if !has_block(blocks0, d) && count_refs(e.digests@, d) == 0 {
            lemma_total_refs_push(files_rm, e, d);
            assert(total_refs(files_rm, d) > 0);
            lemma_total_refs_pos(files_rm, d);
            let j3 = choose|j3: int|
                0 <= j3 < files_rm.len() && count_refs((#[trigger] files_rm[j3]).digests@, d) > 0;
            lemma_count_refs_pos(files_rm[j3].digests@, d);
            let l3 = choose|l3: int|
                0 <= l3 < files_rm[j3].digests@.len() && (#[trigger] files_rm[j3].digests@[l3])@
                    == d;
            let j0 = choose|j0: int| 0 <= j0 < files0.len() && files_rm[j3] == #[trigger] files0[j0];
            assert(has_block(blocks0, files0[j0].digests@[l3]@));
            assert(false);
        }
    }
}

impl IndexTransaction {
    /// Store `path -> digests` with the given metadata. Missing blocks are
    /// taken from `supply`, which must be digest-consistent and agree with
    /// the store on any digest both hold. Fails only when a fresh entry is
    /// needed and the id space is exhausted.
    pub(crate) fn set_entry(
        &mut self,
        path: &Vec<u8>,
        size: u64,
        mtime: u64,
        digests: Vec<HashDigest>,
        supply: Vec<Block>,
    ) -> (r: Result<(), Error>)
        requires
            old(self).wf(),
            forall|i: int|
                0 <= i < supply@.len() ==> (#[trigger] supply@[i]).digest@ == digest_of(
                    supply@[i].bytes@,
                ),
            forall|i: int|
                0 <= i < supply@.len() ==> (#[trigger] supply@[i]).bytes@.len() <= MAX_BLOCK_SIZE,
            forall|l: int|
                0 <= l < digests@.len() ==> has_block(old(self).blocks@, (#[trigger] digests@[l])@)
                    || has_block(supply@, digests@[l]@),
        ensures
            final(self).wf(),
            match r {
                Ok(_) => upsert_post(
                    *old(self),
                    *final(self),
                    path@,
                    size,
                    mtime,
                    digests@,
                    supply@,
                ),
                Err(e) => e is StorageCorrupt && *final(self) == *old(self),
            },
            r is Err <==> (entry_for(old(self).files@, path@) is None && old(self).next_file_id
                == u64::MAX),
    {
        let ghost files0 = self.files@;
        let ghost blocks0 = self.blocks@;
        let ghost next0 = self.next_file_id;
        let ghost sup0 = supply@;
        let ghost e0 = entry_for(files0, path@);

        // Remove the old entry under this path, or pick a fresh id.
        let keep_id: u64;
        match find_entry_idx(&self.files, path) {
            Some(i) => {
                keep_id = self.files[i].file_id;
                proof {
                    lemma_files_remove_facts(files0, i as int);
                }
                let _old_entry = self.files.remove(i);
            },
            None => {
                if self.next_file_id == u64::MAX {
                    return Err(Error::StorageCorrupt);
                }
                keep_id = self.next_file_id;
                self.next_file_id = self.next_file_id + 1;
            },
        }
        let ghost files_rm = self.files@;
        let ghost next1 = self.next_file_id;
        proof {
            if e0 is None {
                lemma_entry_for_exists(files0, path@);
                assert forall|j: int| 0 <= j < files_rm.len() implies entry_among(
                    files0,
                    #[trigger] files_rm[j],
                ) by {
                    assert(files_rm[j] == files0[j]);
                }
            }
            assert forall|j: int| 0 <= j < files_rm.len() implies (#[trigger] files_rm[j].path@)
                != path@ by {}
            assert forall|j: int| 0 <= j < files_rm.len() implies (#[trigger] files_rm[j].file_id)
                != keep_id && files_rm[j].file_id < next1 by {
                assert(entry_among(files0, files_rm[j]));
                let j0 = choose|j0: int|
                    0 <= j0 < files0.len() && files_rm[j] == #[trigger] files0[j0];
                assert(files0[j0].file_id < next0);
            }
            assert forall|d: Seq<u8>| #[trigger] total_refs(files_rm, d) == total_refs(files0, d)
                - (match e0 {
                Some(en) => count_refs(en.digests@, d),
                None => 0nat,
            }) by {
                if e0 is Some {
                } else {
                }
            }
        }

        // Merge in the supplied blocks.
        self.insert_supply(supply);
        let ghost cur = self.blocks@;

        // Write the new entry.
        let entry = FileEntry { file_id: keep_id, path: clone_bytes(path), digests, size, mtime };
        let ghost e = entry;
        self.files.push(entry);
        let ghost files1 = self.files@;

        // Drop blocks that are no longer referenced.
        let mut taken: Vec<Block> = Vec::new();
        core::mem::swap(&mut taken, &mut self.blocks);
        let pruned = prune_blocks(&self.files, taken);
        self.blocks = pruned;
        let ghost blocks1 = self.blocks@;

        proof {
            assert(files1 == files_rm.push(e));
            lemma_finish_upsert(
                files0,
                files_rm,
                e,
                blocks0,
                sup0,
                cur,
                blocks1,
                path@,
                next1,
            );
            assert forall|p: Seq<u8>| p != path@ implies #[trigger] entry_for(files1, p)
                == entry_for(files0, p) by {}
            assert forall|d: Seq<u8>| #[trigger] total_refs(files1, d) == total_refs(files0, d) - (
            match e0 {
                Some(en) => count_refs(en.digests@, d),
                None => 0nat,
            }) + count_refs(e.digests@, d) by {}
            assert(upsert_post(*old(self), *self, path@, size, mtime, e.digests@, sup0));
        }
        Ok(())
    }
}

} // verus!

use crate::chunker::{chunk_data, chunks_view, spec_chunks};

verus! {

/// A collision: two different byte runs with the same digest, either against
/// a stored block or between two chunks of the file being indexed. Treated as
/// impossible for a cryptographic digest; the store reports it as corruption
/// rather than silently mixing contents.
pub open spec fn chunk_collision(blocks0: Seq<Block>, data: Seq<u8>) -> bool {
    let chunks = spec_chunks(data);
    ||| exists|i: int|
        0 <= i < chunks.len() && ((#[trigger] block_for(
            blocks0,
            digest_of(chunks[i]),
        )) matches Some(b) && b.bytes@ != chunks[i])
    ||| exists|i: int, j: int|
        0 <= i < j < chunks.len() && digest_of(#[trigger] chunks[i]) == digest_of(
            #[trigger] chunks[j],
        ) && chunks[i] != chunks[j]
}

/// What indexing `path` with content `data` leaves behind: the entry holds
/// exactly the digests of the chunks of `data` in order, each of those
/// digests resolves to a block holding that chunk's bytes, reference counts
/// move by exactly the citation difference, and nothing else changes.
pub open spec fn indexed_post(
    pre: IndexTransaction,
    post: IndexTransaction,
    path: Seq<u8>,
    size: u64,
    mtime: u64,
    data: Seq<u8>,
) -> bool {
    let chunks = spec_chunks(data);
    &&& (entry_for(post.files@, path) matches Some(e) && {
        &&& e.path@ == path
        &&& e.size == size
        &&& e.mtime == mtime
        &&& e.digests@.len() == chunks.len()
        &&& forall|i: int|
            0 <= i < chunks.len() ==> (#[trigger] e.digests@[i])@ == digest_of(chunks[i])
        &&& match entry_for(pre.files@, path) {
            Some(e0) => e.file_id == e0.file_id && post.next_file_id == pre.next_file_id,
            None => e.file_id == pre.next_file_id && post.next_file_id == pre.next_file_id + 1,
        }
        &&& forall|d: Seq<u8>|
            #[trigger] total_refs(post.files@, d) == total_refs(pre.files@, d) - (match entry_for(
                pre.files@,
                path,
            ) {
                Some(e0) => count_refs(e0.digests@, d),
                None => 0nat,
            }) + count_refs(e.digests@, d)
    })
    &&& forall|p: Seq<u8>|
        p != path ==> #[trigger] entry_for(post.files@, p) == entry_for(pre.files@, p)
    &&& forall|i: int|
        0 <= i < chunks.len() ==> ((#[trigger] block_for(
            post.blocks@,
            digest_of(chunks[i]),
        )) matches Some(b) && b.bytes@ == chunks[i])
    &&& forall|j: int|
        0 <= j < pre.blocks@.len() && total_refs(post.files@, (#[trigger] pre.blocks@[j]).digest@)
            > 0 ==> block_for(post.blocks@, pre.blocks@[j].digest@) == Some(pre.blocks@[j])
    &&& forall|j: int|
        0 <= j < post.blocks@.len() ==> total_refs(
            post.files@,
            (#[trigger] post.blocks@[j]).digest@,
        ) > 0 && (has_block(pre.blocks@, post.blocks@[j].digest@) || exists|i: int|
            0 <= i < chunks.len() && digest_of(#[trigger] chunks[i]) == post.blocks@[j].digest@)
}

/// The ids whose file is gone, kept in order.
pub open spec fn spec_stale_ids(ids: Seq<u64>, present: Seq<bool>) -> Seq<u64>
    decreases ids.len(),
{
    if ids.len() == 0 {
        Seq::empty()
    } else {
        spec_stale_ids(ids.drop_last(), present.drop_last()) + (if !present.last() {
            seq![ids.last()]
        } else {
            Seq::empty()
        })
    }
}

impl IndexTransaction {
    /// Index one file's content under `path`. If the stored metadata (size
    /// and mtime) already matches, this is a no-op. Otherwise the content is
    /// chunked, each chunk's digest computed, unknown blocks stored, known
    /// ones re-cited, and the entry upserted. Fails only on a digest
    /// collision (reported as corruption, never silently mixed) or when the
    /// id space is exhausted; a failed call leaves the transaction unchanged.
    #[verifier::rlimit(100)]
    #[verifier::loop_isolation(false)]
    pub fn index_file(&mut self, path: &Vec<u8>, size: u64, mtime: u64, data: &Vec<u8>) -> (r:
        Result<(), Error>)
        requires
            old(self).wf(),
        ensures
            final(self).wf(),
            metadata_matches(old(self).files@, path@, size, mtime) ==> r is Ok && *final(self)
                == *old(self),
            !metadata_matches(old(self).files@, path@, size, mtime) ==> {
                &&& (r is Err <==> (chunk_collision(old(self).blocks@, data@) || (entry_for(
                    old(self).files@,
                    path@,
                ) is None && old(self).next_file_id == u64::MAX)))
                &&& (r matches Err(e) ==> e is StorageCorrupt && *final(self) == *old(self))
                &&& (r is Ok ==> indexed_post(*old(self), *final(self), path@, size, mtime, data@))
            },
    {
        let ghost files0 = self.files@;
        let ghost blocks0 = self.blocks@;
        let ghost chunks_spec = spec_chunks(data@);

        // Unchanged metadata: nothing to do.
        match find_entry_idx(&self.files, path) {
            Some(i) => {
                if self.files[i].size == size && self.files[i].mtime == mtime {
                    return Ok(());
                }
            },
            None => {},
        }

        // Chunk the content and compute each chunk's digest.
        let chunks = chunk_data(data);
        proof {
            crate::chunker::lemma_chunks_lossless(data@);
        }
        let n = chunks.len();
        let mut digests: Vec<HashDigest> = Vec::new();
        let mut i: usize = 0;
        while i < n
            invariant
                *self == *old(self),
                i <= n == chunks@.len(),
                chunks_view(chunks@) == chunks_spec,
                digests@.len() == i,
                forall|l: int|
                    0 <= l < i ==> (#[trigger] digests@[l])@ == digest_of(chunks_spec[l]),
            decreases n - i,
        {
            let h = compute_digest(&chunks[i]);
            proof {
                assert(chunks@[i as int]@ == chunks_spec[i as int]);
            }
            digests.push(h);
            i += 1;
        }

        // Refuse to mix contents under one digest: compare against the store.
        let mut i: usize = 0;
        while i < n
            invariant
                i <= n == chunks@.len(),
                chunks_view(chunks@) == chunks_spec,
                digests@.len() == n,
                forall|l: int|
                    0 <= l < n ==> (#[trigger] digests@[l])@ == digest_of(chunks_spec[l]),
                *self == *old(self),
                self.blocks@ == blocks0,
                self.files@ == files0,
                forall|l: int|
                    0 <= l < i ==> ((#[trigger] block_for(
                        blocks0,
                        digest_of(chunks_spec[l]),
                    )) matches Some(b) ==> b.bytes@ == chunks_spec[l]),
            decreases n - i,
        {
            match find_block_idx(&self.blocks, &digests[i]) {
                Some(bi) => {
                    if !bytes_eq(&self.blocks[bi].bytes, &chunks[i]) {
                        proof {
                            assert(chunks@[i as int]@ == chunks_spec[i as int]);
                        }
                        return Err(Error::StorageCorrupt);
                    }
                    proof {
                        assert(chunks@[i as int]@ == chunks_spec[i as int]);
                    }
                },
                None => {},
            }
            i += 1;
        }

        // ... and between the chunks themselves.
        let mut i: usize = 0;
        while i < n
            invariant
                i <= n == chunks@.len(),
                chunks_view(chunks@) == chunks_spec,
                digests@.len() == n,
                forall|l: int|
                    0 <= l < n ==> (#[trigger] digests@[l])@ == digest_of(chunks_spec[l]),
                *self == *old(self),
                self.blocks@ == blocks0,
                self.files@ == files0,
                forall|a: int, b: int|
                    0 <= a < b < n && a < i && digest_of(#[trigger] chunks_spec[a]) == digest_of(
                        #[trigger] chunks_spec[b],
                    ) ==> chunks_spec[a] == chunks_spec[b],
            decreases n - i,
        {
            let mut j: usize = i + 1;
            while j < n
                invariant
                    i < j <= n == chunks@.len(),
                    chunks_view(chunks@) == chunks_spec,
                    digests@.len() == n,
                    forall|l: int|
                        0 <= l < n ==> (#[trigger] digests@[l])@ == digest_of(chunks_spec[l]),
                    *self == *old(self),
                    self.blocks@ == blocks0,
                    self.files@ == files0,
                    forall|b: int|
                        i < b < j && digest_of(#[trigger] chunks_spec[i as int]) == digest_of(
                            chunks_spec[b],
                        ) ==> chunks_spec[i as int] == chunks_spec[b],
                decreases n - j,
            {
                if digests[i].same(&digests[j]) {
                    if !bytes_eq(&chunks[i], &chunks[j]) {
                        proof {
                            assert(chunks@[i as int]@ == chunks_spec[i as int]);
                            assert(chunks@[j as int]@ == chunks_spec[j as int]);
                        }
                        return Err(Error::StorageCorrupt);
                    }
                }
                proof {
                    assert(chunks@[i as int]@ == chunks_spec[i as int]);
                    assert(chunks@[j as int]@ == chunks_spec[j as int]);
                }
                j += 1;
            }
            i += 1;
        }
        proof {
            assert(!chunk_collision(blocks0, data@));
        }

        // Pair each digest with its chunk's bytes as the block supply.
        let mut supply: Vec<Block> = Vec::new();
        let mut i: usize = 0;
        while i < n
            invariant
                i <= n == chunks@.len(),
                chunks_view(chunks@) == chunks_spec,
                digests@.len() == n,
                forall|l: int|
                    0 <= l < n ==> (#[trigger] digests@[l])@ == digest_of(chunks_spec[l]),
                *self == *old(self),
                self.blocks@ == blocks0,
                self.files@ == files0,
                supply@.len() == i,
                forall|l: int|
                    0 <= l < i ==> (#[trigger] supply@[l]).digest@ == digest_of(chunks_spec[l])
                        && supply@[l].bytes@ == chunks_spec[l],
            decreases n - i,
        {
            proof {
                assert(chunks@[i as int]@ == chunks_spec[i as int]);
            }
            let block = Block {
                digest: HashDigest { bytes: clone_bytes(&digests[i].bytes) },
                bytes: clone_bytes(&chunks[i]),
            };
            supply.push(block);
            i += 1;
        }

        let ghost ds = digests@;
        let ghost sup0 = supply@;
        proof {
            assert forall|l: int| 0 <= l < ds.len() implies has_block(
                sup0,
                (#[trigger] ds[l])@,
            ) by {
                assert(sup0[l].digest@ == ds[l]@);
                lemma_block_for_exists(sup0, ds[l]@);
            }
        }

        // Store everything.
        let res = self.set_entry(path, size, mtime, digests, supply);
        match res {
            Ok(_) => {
                proof {
                    let post = *self;
                    let pre_files = files0;
                    let e = entry_for(post.files@, path@)->Some_0;
                    assert(e.digests@ == ds);
                    assert forall|i2: int| 0 <= i2 < chunks_spec.len() implies (
                    #[trigger] block_for(
                        post.blocks@,
                        digest_of(chunks_spec[i2]),
                    )) matches Some(b) && b.bytes@ == chunks_spec[i2] by {
                        let d = digest_of(chunks_spec[i2]);
                        assert(ds[i2]@ == d);
                        assert(block_for(post.blocks@, d) == (if has_block(blocks0, d) {
                            block_for(blocks0, d)
                        } else {
                            block_for(sup0, d)
                        }));
                        if has_block(blocks0, d) {
                        } else {
                            lemma_block_for_exists(sup0, d);
                            let l0 = choose|l0: int|
                                0 <= l0 < sup0.len() && #[trigger] sup0[l0] == block_for(
                                    sup0,
                                    d,
                                )->Some_0 && sup0[l0].digest@ == d;
                            if l0 < i2 {
                                assert(digest_of(chunks_spec[l0]) == digest_of(chunks_spec[i2]));
                            } else if l0 > i2 {
                                assert(digest_of(chunks_spec[i2]) == digest_of(chunks_spec[l0]));
                            }
                        }
                    }
                    assert forall|j: int| 0 <= j < post.blocks@.len() implies total_refs(
                        post.files@,
                        (#[trigger] post.blocks@[j]).digest@,
                    ) > 0 && (has_block(blocks0, post.blocks@[j].digest@) || exists|i2: int|
                        0 <= i2 < chunks_spec.len() && digest_of(#[trigger] chunks_spec[i2])
                            == post.blocks@[j].digest@) by {
                        let d = post.blocks@[j].digest@;
                        if !has_block(blocks0, d) {
                            assert(count_refs(ds, d) > 0);
                            lemma_count_refs_pos(ds, d);
                            let l = choose|l: int| 0 <= l < ds.len() && (#[trigger] ds[l])@ == d;
                            assert(digest_of(chunks_spec[l]) == d);
                        }
                    }
                    assert(indexed_post(*old(self), *self, path@, size, mtime, data@));
                }
                Ok(())
            },
            Err(e) => Err(e),
        }
    }

    /// Remove the entry with this file id (a no-op if there is none) and
    /// decrement the reference count of every digest it cited, by exactly its
    /// citation count; blocks whose count reaches zero are deleted, and
    /// blocks still cited by other entries survive untouched.
    pub fn remove_file(&mut self, file_id: u64) -> (r: Result<(), Error>)
        requires
            old(self).wf(),
        ensures
            final(self).wf(),
            r is Ok,
            match entry_by_id(old(self).files@, file_id) {
                None => *final(self) == *old(self),
                Some(e) => {
                    &&& entry_for(final(self).files@, e.path@) is None
                    &&& entry_by_id(final(self).files@, file_id) is None
                    &&& final(self).next_file_id == old(self).next_file_id
                    &&& forall|p: Seq<u8>|
                        p != e.path@ ==> #[trigger] entry_for(final(self).files@, p) == entry_for(
                            old(self).files@,
                            p,
                        )
                    &&& forall|d: Seq<u8>|
                        #[trigger] total_refs(final(self).files@, d) == total_refs(
                            old(self).files@,
                            d,
                        ) - count_refs(e.digests@, d)
                    &&& forall|d: Seq<u8>|
                        #![trigger has_block(final(self).blocks@, d)]
                        #![trigger has_block(old(self).blocks@, d)]
                        has_block(final(self).blocks@, d) <==> (has_block(old(self).blocks@, d)
                            && total_refs(final(self).files@, d) > 0)
                    &&& forall|j: int|
                        0 <= j < old(self).blocks@.len() && total_refs(
                            final(self).files@,
                            (#[trigger] old(self).blocks@[j]).digest@,
                        ) > 0 ==> block_for(final(self).blocks@, old(self).blocks@[j].digest@)
                            == Some(old(self).blocks@[j])
                },
            },
    {
        let ghost files0 = self.files@;
        let ghost blocks0 = self.blocks@;
        match find_entry_by_id(&self.files, file_id) {
            None => Ok(()),
            Some(i) => {
                let ghost e = files0[i as int];
                proof {
                    lemma_files_remove_facts(files0, i as int);
                }
                let _removed = self.files.remove(i);
                let ghost files1 = self.files@;
                proof {
                    assert forall|j: int| 0 <= j < files1.len() implies (
                    #[trigger] files1[j].file_id) != file_id by {}
                    lemma_entry_by_id_none(files1, file_id);
                    assert forall|j: int| 0 <= j < files1.len() implies (#[trigger] files1[j].path@)
                        != e.path@ by {}
                    lemma_entry_for_none(files1, e.path@);
                    assert forall|j: int| 0 <= j < files1.len() implies (
                    #[trigger] files1[j].file_id) < self.next_file_id by {
                        assert(entry_among(files0, files1[j]));
                        let j0 = choose|j0: int|
                            0 <= j0 < files0.len() && files1[j] == #[trigger] files0[j0];
                    }
                }
                let mut taken: Vec<Block> = Vec::new();
                core::mem::swap(&mut taken, &mut self.blocks);
                let pruned = prune_blocks(&self.files, taken);
                self.blocks = pruned;
                let ghost blocks1 = self.blocks@;
                proof {
                    assert forall|i2: int| 0 <= i2 < blocks1.len() implies (
                    #[trigger] blocks1[i2].digest@) == digest_of(blocks1[i2].bytes@) && (
                    #[trigger] blocks1[i2]).bytes@.len() <= MAX_BLOCK_SIZE by {
                        lemma_block_for_exists(blocks0, blocks1[i2].digest@);
                        let j = choose|j: int|
                            0 <= j < blocks0.len() && #[trigger] blocks0[j] == blocks1[i2]
                                && blocks0[j].digest@ == blocks1[i2].digest@;
                    }
                    assert forall|j: int, l: int|
                        0 <= j < files1.len() && 0 <= l < files1[j].digests@.len() implies has_block(
                        blocks1,
                        (#[trigger] files1[j].digests@[l])@,
                    ) by {
                        let d = files1[j].digests@[l]@;
                        lemma_count_refs_pos(files1[j].digests@, d);
                        lemma_total_refs_pos(files1, d);
                        assert(total_refs(files1, d) > 0);
                        assert(entry_among(files0, files1[j]));
                        let j0 = choose|j0: int|
                            0 <= j0 < files0.len() && files1[j] == #[trigger] files0[j0];
                        assert(has_block(blocks0, files0[j0].digests@[l]@));
                        lemma_block_for_exists(blocks0, d);
                        let j2 = choose|j2: int|
                            0 <= j2 < blocks0.len() && (#[trigger] blocks0[j2].digest@) == d;
                        assert(block_for(blocks1, d) == Some(blocks0[j2]));
                    }
                    assert(self.wf());
                    assert forall|d: Seq<u8>|
                        #![trigger has_block(blocks1, d)]
                        #![trigger has_block(blocks0, d)]
                        has_block(blocks1, d) <==> (has_block(blocks0, d) && total_refs(files1, d)
                            > 0) by {
                        if has_block(blocks1, d) {
                            lemma_block_for_exists(blocks1, d);
                            let i2 = choose|i2: int|
                                0 <= i2 < blocks1.len() && (#[trigger] blocks1[i2].digest@) == d;
                            assert(block_for(blocks0, d) == Some(blocks1[i2]));
                            assert(total_refs(files1, d) > 0);
                        }
                        if has_block(blocks0, d) && total_refs(files1, d) > 0 {
                            lemma_block_for_exists(blocks0, d);
                            let j2 = choose|j2: int|
                                0 <= j2 < blocks0.len() && (#[trigger] blocks0[j2].digest@) == d;
                            assert(block_for(blocks1, d) == Some(blocks0[j2]));
                        }
                    }
                }
                Ok(())
            },
        }
    }

    /// Which of the listed file ids to remove, given for each whether its
    /// file is still present: exactly the ids whose file is gone, in order.
    /// This is the reconcile decision after a pass over the disk.
    pub fn stale_ids(ids: &Vec<u64>, present: &Vec<bool>) -> (r: Vec<u64>)
        requires
            ids@.len() == present@.len(),
        ensures
            r@ == spec_stale_ids(ids@, present@),
    {
        let n = ids.len();
        let mut r: Vec<u64> = Vec::new();
        let mut i: usize = 0;
        proof {
            assert(ids@.take(0) =~= Seq::<u64>::empty());
            assert(present@.take(0) =~= Seq::<bool>::empty());
            assert(r@ =~= spec_stale_ids(ids@.take(0), present@.take(0)));
        }
        while i < n
            invariant
                i <= n == ids@.len() == present@.len(),
                r@ == spec_stale_ids(ids@.take(i as int), present@.take(i as int)),
            decreases n - i,
        {
            proof {
                assert(ids@.take(i + 1).drop_last() =~= ids@.take(i as int));
                assert(present@.take(i + 1).drop_last() =~= present@.take(i as int));
                assert(ids@.take(i + 1).last() == ids@[i as int]);
                assert(present@.take(i + 1).last() == present@[i as int]);
            }
            if !present[i] {
                r.push(ids[i]);
                proof {
                    assert(r@ =~= spec_stale_ids(ids@.take(i + 1), present@.take(i + 1)));
                }
            } else {
                proof {
                    assert(r@ =~= spec_stale_ids(ids@.take(i + 1), present@.take(i + 1)));
                }
            }
            i += 1;
        }
        proof {
            assert(ids@.take(n as int) =~= ids@);
            assert(present@.take(n as int) =~= present@);
        }
        r
    }

    /// Every entry visible in this transaction, as `(file id, path)` pairs.
    pub fn list_files(&self) -> (r: Vec<(u64, Vec<u8>)>)
        ensures
            r@.len() == self.files@.len(),
            forall|i: int|
                0 <= i < r@.len() ==> (#[trigger] r@[i]).0 == self.files@[i].file_id && r@[i].1@
                    == self.files@[i].path@,
    {
        let n = self.files.len();
        let mut r: Vec<(u64, Vec<u8>)> = Vec::new();
        let mut i: usize = 0;
        while i < n
            invariant
                i <= n == self.files@.len(),
                r@.len() == i,
                forall|j: int|
                    0 <= j < i ==> (#[trigger] r@[j]).0 == self.files@[j].file_id && r@[j].1@
                        == self.files@[j].path@,
            decreases n - i,
        {
            let pair = (self.files[i].file_id, clone_bytes(&self.files[i].path));
            r.push(pair);
            i += 1;
        }
        r
    }

    /// The digest sequence stored under `path`, if any.
    pub fn digests_of(&self, path: &Vec<u8>) -> (r: Option<Vec<HashDigest>>)
        ensures
            match r {
                Some(v) => entry_for(self.files@, path@) matches Some(e) && v@.len()
                    == e.digests@.len() && forall|l: int|
                    0 <= l < v@.len() ==> (#[trigger] v@[l])@ == e.digests@[l]@,
                None => entry_for(self.files@, path@) is None,
            },
    {
        match find_entry_idx(&self.files, path) {
            None => None,
            Some(i) => {
                let ds = &self.files[i].digests;
                let n = ds.len();
                let mut v: Vec<HashDigest> = Vec::new();
                let mut l: usize = 0;
                while l < n
                    invariant
                        l <= n == ds@.len(),
                        v@.len() == l,
                        forall|m: int| 0 <= m < l ==> (#[trigger] v@[m])@ == ds@[m]@,
                    decreases n - l,
                {
                    let h = ds[l].duplicate();
                    v.push(h);
                    l += 1;
                }
                Some(v)
            },
        }
    }

    /// The size and mtime stored under `path`, if any.
    pub fn metadata_of(&self, path: &Vec<u8>) -> (r: Option<(u64, u64)>)
        ensures
            match r {
                Some(m) => entry_for(self.files@, path@) matches Some(e) && m.0 == e.size && m.1
                    == e.mtime,
                None => entry_for(self.files@, path@) is None,
            },
    {
        match find_entry_idx(&self.files, path) {
            None => None,
            Some(i) => Some((self.files[i].size, self.files[i].mtime)),
        }
    }

    /// The bytes of the block stored under digest `d`, if any.
    pub fn fetch_block(&self, d: &HashDigest) -> (r: Option<Vec<u8>>)
        ensures
            match r {
                Some(v) => block_for(self.blocks@, d@) matches Some(b) && v@ == b.bytes@,
                None => !has_block(self.blocks@, d@),
            },
    {
        match find_block_idx(&self.blocks, d) {
            None => None,
            Some(i) => Some(clone_bytes(&self.blocks[i].bytes)),
        }
    }

    /// Whether the store holds a block for digest `d`.
    pub fn contains_block(&self, d: &HashDigest) -> (r: bool)
        ensures
            r == has_block(self.blocks@, d@),
    {
        find_block_idx(&self.blocks, d).is_some()
    }

    /// The batched existence query: which of these digests the store holds.
    pub fn have_blocks(&self, ds: &Vec<HashDigest>) -> (r: Vec<bool>)
        ensures
            r@.len() == ds@.len(),
            forall|i: int|
                0 <= i < ds@.len() ==> r@[i] == has_block(self.blocks@, (#[trigger] ds@[i])@),
    {
        let n = ds.len();
        let mut r: Vec<bool> = Vec::new();
        let mut i: usize = 0;
        while i < n
            invariant
                i <= n == ds@.len(),
                r@.len() == i,
                forall|j: int|
                    0 <= j < i ==> r@[j] == has_block(self.blocks@, (#[trigger] ds@[j])@),
            decreases n - i,
        {
            let b = self.contains_block(&ds[i]);
            r.push(b);
            i += 1;
        }
        r
    }

    /// The reference count of digest `d`, capped at the machine limit.
    pub fn refcount(&self, d: &HashDigest) -> (r: u64)
        ensures
            total_refs(self.files@, d@) <= u64::MAX ==> r == total_refs(self.files@, d@),
            r <= total_refs(self.files@, d@),
    {
        refcount_of(&self.files, d)
    }

    /// How many blocks the store holds.
    pub fn block_count(&self) -> (r: usize)
        ensures
            r == self.blocks@.len(),
    {
        self.blocks.len()
    }

    /// How many file entries the store holds.
    pub fn file_count(&self) -> (r: usize)
        ensures
            r == self.files@.len(),
    {
        self.files.len()
    }
}

} // verus!

verus! {

/// The same entry, field for field (fresh copies of a well-formed store are
/// compared this way).
pub open spec fn entry_equiv(x: FileEntry, y: FileEntry) -> bool {
    &&& x.file_id == y.file_id
    &&& x.path@ == y.path@
    &&& x.size == y.size
    &&& x.mtime == y.mtime
    &&& x.digests@.len() == y.digests@.len()
    &&& forall|l: int| 0 <= l < x.digests@.len() ==> (#[trigger] x.digests@[l])@ == y.digests@[l]@
}

pub open spec fn entries_equiv(a: Seq<FileEntry>, b: Seq<FileEntry>) -> bool {
    a.len() == b.len() && forall|i: int| 0 <= i < a.len() ==> entry_equiv(#[trigger] a[i], b[i])
}

pub open spec fn block_equiv(x: Block, y: Block) -> bool {
    x.digest@ == y.digest@ && x.bytes@ == y.bytes@
}

pub open spec fn blocks_equiv(a: Seq<Block>, b: Seq<Block>) -> bool {
    a.len() == b.len() && forall|i: int| 0 <= i < a.len() ==> block_equiv(#[trigger] a[i], b[i])
}

proof fn lemma_count_refs_congruent(x: Seq<HashDigest>, y: Seq<HashDigest>, d: Seq<u8>)
    requires
        x.len() == y.len(),
        forall|l: int| 0 <= l < x.len() ==> (#[trigger] x[l])@ == y[l]@,
    ensures
        count_refs(x, d) == count_refs(y, d),
    decreases x.len(),
{
    if x.len() > 0 {
        assert forall|l: int| 0 <= l < x.drop_first().len() implies (
        #[trigger] x.drop_first()[l])@ == y.drop_first()[l]@ by {
            assert(x.drop_first()[l] == x[l + 1]);
            assert(y.drop_first()[l] == y[l + 1]);
        }
        lemma_count_refs_congruent(x.drop_first(), y.drop_first(), d);
        assert(x[0]@ == y[0]@);
    }
}

proof fn lemma_total_refs_congruent(a: Seq<FileEntry>, b: Seq<FileEntry>, d: Seq<u8>)
    requires
        entries_equiv(a, b),
    ensures
        total_refs(a, d) == total_refs(b, d),
    decreases a.len(),
{
    if a.len() > 0 {
        assert forall|i: int| 0 <= i < a.drop_first().len() implies entry_equiv(
            #[trigger] a.drop_first()[i],
            b.drop_first()[i],
        ) by {
            assert(a.drop_first()[i] == a[i + 1]);
            assert(b.drop_first()[i] == b[i + 1]);
        }
        lemma_total_refs_congruent(a.drop_first(), b.drop_first(), d);
        assert(entry_equiv(a[0], b[0]));
        lemma_count_refs_congruent(a.first().digests@, b.first().digests@, d);
    }
}

/// A fresh copy of a well-formed store is well-formed.
proof fn lemma_store_inv_congruent(
    a_files: Seq<FileEntry>,
    a_blocks: Seq<Block>,
    b_files: Seq<FileEntry>,
    b_blocks: Seq<Block>,
)
    requires
        store_inv(a_files, a_blocks),
        entries_equiv(a_files, b_files),
        blocks_equiv(a_blocks, b_blocks),
    ensures
        store_inv(b_files, b_blocks),
{
    assert forall|i: int, j: int| 0 <= i < j < b_files.len() implies (#[trigger] b_files[i].path@)
        != (#[trigger] b_files[j].path@) by {
        assert(entry_equiv(a_files[i], b_files[i]));
        assert(entry_equiv(a_files[j], b_files[j]));
    }
    assert forall|i: int, j: int|
        0 <= i < j < b_files.len() implies (#[trigger] b_files[i].file_id) != (
    #[trigger] b_files[j].file_id) by {
        assert(entry_equiv(a_files[i], b_files[i]));
        assert(entry_equiv(a_files[j], b_files[j]));
    }
    assert forall|i: int, j: int| 0 <= i < j < b_blocks.len() implies (
    #[trigger] b_blocks[i].digest@) != (#[trigger] b_blocks[j].digest@) by {
        assert(block_equiv(a_blocks[i], b_blocks[i]));
        assert(block_equiv(a_blocks[j], b_blocks[j]));
    }
    assert forall|i: int| 0 <= i < b_blocks.len() implies (#[trigger] b_blocks[i].digest@)
        == digest_of(b_blocks[i].bytes@) by {
        assert(block_equiv(a_blocks[i], b_blocks[i]));
    }
    assert forall|i: int| 0 <= i < b_blocks.len() implies (#[trigger] b_blocks[i]).bytes@.len()
        <= MAX_BLOCK_SIZE by {
        assert(block_equiv(a_blocks[i], b_blocks[i]));
    }
    assert forall|i: int| 0 <= i < b_blocks.len() implies total_refs(
        b_files,
        (#[trigger] b_blocks[i]).digest@,
    ) > 0 by {
        assert(block_equiv(a_blocks[i], b_blocks[i]));
        lemma_total_refs_congruent(a_files, b_files, b_blocks[i].digest@);
    }
    assert forall|j: int, l: int|
        0 <= j < b_files.len() && 0 <= l < b_files[j].digests@.len() implies has_block(
        b_blocks,
        (#[trigger] b_files[j].digests@[l])@,
    ) by {
        assert(entry_equiv(a_files[j], b_files[j]));
        assert(a_files[j].digests@[l]@ == b_files[j].digests@[l]@);
        assert(has_block(a_blocks, a_files[j].digests@[l]@));
        lemma_block_for_exists(a_blocks, a_files[j].digests@[l]@);
        let j2 = choose|j2: int|
            0 <= j2 < a_blocks.len() && (#[trigger] a_blocks[j2].digest@) == a_files[j].digests@[l]@;
        assert(block_equiv(a_blocks[j2], b_blocks[j2]));
        assert(b_blocks[j2].digest@ == b_files[j].digests@[l]@);
        lemma_block_for_exists(b_blocks, b_files[j].digests@[l]@);
    }
}

/// Copy a file entry.
fn clone_entry(e: &FileEntry) -> (r: FileEntry)
    ensures
        entry_equiv(*e, r),
        entry_equiv(r, *e),
{
    let n = e.digests.len();
    let mut ds: Vec<HashDigest> = Vec::new();
    let mut l: usize = 0;
    while l < n
        invariant
            l <= n == e.digests@.len(),
            ds@.len() == l,
            forall|m: int| 0 <= m < l ==> (#[trigger] ds@[m])@ == e.digests@[m]@,
        decreases n - l,
    {
        let h = e.digests[l].duplicate();
        ds.push(h);
        l += 1;
    }
    FileEntry {
        file_id: e.file_id,
        path: clone_bytes(&e.path),
        digests: ds,
        size: e.size,
        mtime: e.mtime,
    }
}

/// The persistent content-addressed store. Readers of the index see only its
/// last committed state; all mutation goes through the single write
/// transaction, which buffers its changes until `commit`.
pub struct Index {
    pub files: Vec<FileEntry>,
    pub blocks: Vec<Block>,
    pub next_file_id: u64,
    pub tx_active: bool,
}

impl Index {
    pub open spec fn wf(&self) -> bool {
        &&& store_inv(self.files@, self.blocks@)
        &&& forall|j: int|
            0 <= j < self.files@.len() ==> (#[trigger] self.files@[j].file_id) < self.next_file_id
    }

    /// A fresh, empty store.
    pub fn new() -> (r: Index)
        ensures
            r.wf(),
            r.files@.len() == 0,
            r.blocks@.len() == 0,
            r.next_file_id == 1,
            !r.tx_active,
    {
        Index { files: Vec::new(), blocks: Vec::new(), next_file_id: 1, tx_active: false }
    }

    /// Acquire the sole write handle: a buffered copy of the committed state.
    /// Fails while another transaction is active (single-writer discipline).
    #[verifier::loop_isolation(false)]
    pub fn transaction(&mut self) -> (r: Result<IndexTransaction, Error>)
        requires
            old(self).wf(),
        ensures
            final(self).wf(),
            final(self).files == old(self).files,
            final(self).blocks == old(self).blocks,
            final(self).next_file_id == old(self).next_file_id,
            old(self).tx_active ==> (r matches Err(e) && e is TransactionConflict && *final(self)
                == *old(self)),
            !old(self).tx_active ==> (r matches Ok(tx) && {
                &&& tx.wf()
                &&& entries_equiv(tx.files@, old(self).files@)
                &&& blocks_equiv(tx.blocks@, old(self).blocks@)
                &&& tx.next_file_id == old(self).next_file_id
                &&& final(self).tx_active
            }),
    {
        if self.tx_active {
            return Err(Error::TransactionConflict);
        }
        let n = self.files.len();
        let mut files: Vec<FileEntry> = Vec::new();
        let mut i: usize = 0;
        while i < n
            invariant
                *self == *old(self),
                i <= n == self.files@.len(),
                files@.len() == i,
                forall|j: int| 0 <= j < i ==> entry_equiv(self.files@[j], #[trigger] files@[j]),
            decreases n - i,
        {
            let e = clone_entry(&self.files[i]);
            files.push(e);
            i += 1;
        }
        let m = self.blocks.len();
        let mut blocks: Vec<Block> = Vec::new();
        let mut i: usize = 0;
        while i < m
            invariant
                *self == *old(self),
                i <= m == self.blocks@.len(),
                blocks@.len() == i,
                forall|j: int| 0 <= j < i ==> block_equiv(self.blocks@[j], #[trigger] blocks@[j]),
            decreases m - i,
        {
            let b = Block {
                digest: self.blocks[i].digest.duplicate(),
                bytes: clone_bytes(&self.blocks[i].bytes),
            };
            blocks.push(b);
            i += 1;
        }
        let tx = IndexTransaction { files, blocks, next_file_id: self.next_file_id };
        proof {
            lemma_store_inv_congruent(self.files@, self.blocks@, tx.files@, tx.blocks@);
            assert forall|j: int| 0 <= j < tx.files@.len() implies (
            #[trigger] tx.files@[j].file_id) < tx.next_file_id by {
                assert(entry_equiv(self.files@[j], tx.files@[j]));
            }
        }
        self.tx_active = true;
        Ok(tx)
    }
}

impl IndexTransaction {
    /// Atomically make every buffered change the index's committed state;
    /// nothing of it was visible before this call, and all of it is after.
    pub fn commit(self, index: &mut Index)
        requires
            self.wf(),
        ensures
            final(index).wf(),
            final(index).files@ == self.files@,
            final(index).blocks@ == self.blocks@,
            final(index).next_file_id == self.next_file_id,
            !final(index).tx_active,
    {
        let IndexTransaction { files, blocks, next_file_id } = self;
        index.files = files;
        index.blocks = blocks;
        index.next_file_id = next_file_id;
        index.tx_active = false;
    }

    /// Discard every buffered change: the index's committed state is left
    /// byte for byte as it was.
    pub fn rollback(self, index: &mut Index)
        ensures
            final(index).files == old(index).files,
            final(index).blocks == old(index).blocks,
            final(index).next_file_id == old(index).next_file_id,
            !final(index).tx_active,
    {
        index.tx_active = false;
    }
}

} // verus!

verus! {

impl Index {
    /// Open a store from its persisted records, checking consistency first:
    /// unique paths, ids and digests, ids below the id counter, every block's
    /// digest matching its bytes, every block cited, and every cited digest
    /// present. Inconsistent data is reported as corruption, exactly when one
    /// of those checks fails; there is no auto-repair.
    #[verifier::loop_isolation(false)]
    #[verifier::rlimit(100)]
    pub fn open_from(files: Vec<FileEntry>, blocks: Vec<Block>, next_file_id: u64) -> (r: Result<
        Index,
        Error,
    >)
        ensures
            match r {
                Ok(ix) => ix.wf() && ix.files@ == files@ && ix.blocks@ == blocks@
                    && ix.next_file_id == next_file_id && !ix.tx_active,
                Err(e) => e is StorageCorrupt,
            },
            r is Ok <==> (store_inv(files@, blocks@) && forall|j: int|
                0 <= j < files@.len() ==> (#[trigger] files@[j].file_id) < next_file_id),
    {
        let nf = files.len();
        let nb = blocks.len();
        // unique paths and ids, ids below the counter
        let mut i: usize = 0;
        while i < nf
            invariant
                i <= nf == files@.len(),
                forall|a: int, b: int|
                    0 <= a < b < files@.len() && a < i ==> (#[trigger] files@[a].path@) != (
                    #[trigger] files@[b].path@),
                forall|a: int, b: int|
                    0 <= a < b < files@.len() && a < i ==> (#[trigger] files@[a].file_id) != (
                    #[trigger] files@[b].file_id),
                forall|a: int| 0 <= a < i ==> (#[trigger] files@[a].file_id) < next_file_id,
            decreases nf - i,
        {
            if files[i].file_id >= next_file_id {
                return Err(Error::StorageCorrupt);
            }
            let mut j: usize = i + 1;
            while j < nf
                invariant
                    i < j <= nf == files@.len(),
                    forall|b: int|
                        i < b < j ==> (#[trigger] files@[b].path@) != files@[i as int].path@,
                    forall|b: int|
                        i < b < j ==> (#[trigger] files@[b].file_id) != files@[i as int].file_id,
                decreases nf - j,
            {
                if bytes_eq(&files[i].path, &files[j].path) {
                    return Err(Error::StorageCorrupt);
                }
                if files[i].file_id == files[j].file_id {
                    return Err(Error::StorageCorrupt);
                }
                j += 1;
            }
            i += 1;
        }
        // unique digests, consistent with their bytes, every block cited
        let mut i: usize = 0;
        while i < nb
            invariant
                i <= nb == blocks@.len(),
                paths_unique(files@),
                ids_unique(files@),
                forall|a: int, b: int|
                    0 <= a < b < blocks@.len() && a < i ==> (#[trigger] blocks@[a].digest@) != (
                    #[trigger] blocks@[b].digest@),
                forall|a: int|
                    0 <= a < i ==> (#[trigger] blocks@[a].digest@) == digest_of(blocks@[a].bytes@),
                forall|a: int|
                    0 <= a < i ==> (#[trigger] blocks@[a]).bytes@.len() <= MAX_BLOCK_SIZE,
                forall|a: int|
                    0 <= a < i ==> total_refs(files@, (#[trigger] blocks@[a]).digest@) > 0,
            decreases nb - i,
        {
            if blocks[i].bytes.len() > MAX_BLOCK_SIZE {
                return Err(Error::StorageCorrupt);
            }
            let d = compute_digest(&blocks[i].bytes);
            if !d.same(&blocks[i].digest) {
                return Err(Error::StorageCorrupt);
            }
            if !is_referenced(&files, &blocks[i].digest) {
                return Err(Error::StorageCorrupt);
            }
            let mut j: usize = i + 1;
            while j < nb
                invariant
                    i < j <= nb == blocks@.len(),
                    forall|b: int|
                        i < b < j ==> (#[trigger] blocks@[b].digest@) != blocks@[i as int].digest@,
                decreases nb - j,
            {
                if bytes_eq(&blocks[i].digest.bytes, &blocks[j].digest.bytes) {
                    proof {
                        assert(blocks@[i as int].digest@ == blocks@[j as int].digest@);
                        assert(!digests_unique(blocks@));
                    }
                    return Err(Error::StorageCorrupt);
                }
                j += 1;
            }
            i += 1;
        }
        // every cited digest has its block
        let mut i: usize = 0;
        while i < nf
            invariant
                i <= nf == files@.len(),
                forall|a: int, l: int|
                    0 <= a < i && 0 <= l < files@[a].digests@.len() ==> has_block(
                        blocks@,
                        (#[trigger] files@[a].digests@[l])@,
                    ),
            decreases nf - i,
        {
            let nd = files[i].digests.len();
            let mut l: usize = 0;
            while l < nd
                invariant
                    i < nf == files@.len(),
                    l <= nd == files@[i as int].digests@.len(),
                    forall|m: int|
                        0 <= m < l ==> has_block(
                            blocks@,
                            (#[trigger] files@[i as int].digests@[m])@,
                        ),
                decreases nd - l,
            {
                match find_block_idx(&blocks, &files[i].digests[l]) {
                    None => {
                        return Err(Error::StorageCorrupt);
                    },
                    Some(_) => {},
                }
                l += 1;
            }
            i += 1;
        }
        Ok(Index { files, blocks, next_file_id, tx_active: false })
    }
}

} // verus!
