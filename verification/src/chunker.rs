//! Content-defined chunking: a deterministic splitter that cuts a byte
//! stream where a rolling hash over a trailing window of recent bytes
//! satisfies a fixed predicate, or at `MAX_BLOCK_SIZE` bytes since the last
//! cut, whichever comes first. The final chunk ends at end-of-stream.
//! Boundaries depend on local content alone, so identical byte runs chunk
//! identically wherever they occur, which is what makes cross-file and
//! cross-version deduplication possible.

use vstd::prelude::*;

verus! {

/// No chunk, and therefore no block, is ever longer than this.
pub const MAX_BLOCK_SIZE: usize = 32768;

/// How many trailing bytes the rolling hash looks at.
pub const WINDOW_SIZE: usize = 16;

/// A cut is placed where the window hash is divisible by this power of two,
/// i.e. where its low-order bits are zero; it controls the average chunk size.
pub const BOUNDARY_DIVISOR: u64 = 8192;

/// The hash is kept below this modulus so the rolling update never overflows.
pub const HASH_MODULUS: u64 = 0x1_0000_0000;

/// The hash of a window of bytes: a polynomial fold of the bytes, reduced
/// modulo `HASH_MODULUS`. It depends on the window's bytes alone.
pub open spec fn window_hash(s: Seq<u8>) -> u64
    decreases s.len(),
{
    if s.len() == 0 {
        0u64
    } else {
        ((window_hash(s.drop_last()) * 31 + s.last()) % (HASH_MODULUS as int)) as u64
    }
}

/// Whether a chunk of the stream `d` may end after its first `k` bytes:
/// either the chunk has reached the maximum size, or the hash of the window
/// ending there satisfies the boundary predicate.
pub open spec fn is_cut_point(d: Seq<u8>, k: int) -> bool {
    k == MAX_BLOCK_SIZE || (WINDOW_SIZE <= k && window_hash(
        d.subrange(k - WINDOW_SIZE, k),
    ) % BOUNDARY_DIVISOR == 0)
}

/// The length of the first chunk of `d`, scanning from candidate length `k`:
/// the first cut point at or after `k`, or the end of the stream.
pub open spec fn cut_len_from(d: Seq<u8>, k: int) -> int
    decreases d.len() - k,
    when 1 <= k
{
    if k >= d.len() {
        d.len() as int
    } else if is_cut_point(d, k) {
        k
    } else {
        cut_len_from(d, k + 1)
    }
}

/// The length of the first chunk of `d`.
pub open spec fn first_cut(d: Seq<u8>) -> int {
    cut_len_from(d, 1)
}

pub proof fn lemma_cut_len_bounds(d: Seq<u8>, k: int)
    requires
        1 <= k <= d.len(),
        k <= MAX_BLOCK_SIZE,
    ensures
        k <= cut_len_from(d, k) <= d.len(),
        cut_len_from(d, k) <= MAX_BLOCK_SIZE,
    decreases d.len() - k,
{
    if k >= d.len() {
    } else if is_cut_point(d, k) {
    } else {
        assert(k != MAX_BLOCK_SIZE);
        lemma_cut_len_bounds(d, k + 1);
    }
}

/// The chunks of a byte stream: the first chunk ends at the first cut point
/// (or at end-of-stream), and the rest of the stream is chunked the same
/// way. An empty stream yields no chunks.
pub open spec fn spec_chunks(d: Seq<u8>) -> Seq<Seq<u8>>
    decreases d.len(),
    via spec_chunks_decreases
{
    if d.len() == 0 {
        Seq::empty()
    } else {
        seq![d.take(first_cut(d))] + spec_chunks(d.skip(first_cut(d)))
    }
}

#[via_fn]
proof fn spec_chunks_decreases(d: Seq<u8>) {
    if d.len() > 0 {
        lemma_cut_len_bounds(d, 1);
    }
}

/// The sequence of views of a vector of chunks.
pub open spec fn chunks_view(r: Seq<Vec<u8>>) -> Seq<Seq<u8>> {
    r.map_values(|v: Vec<u8>| v@)
}

/// Chunking is deterministic: the boundaries are a function of the input
/// bytes alone, so identical input always yields identical chunks, and with
/// them identical digests.
pub proof fn lemma_chunking_deterministic(a: Seq<u8>, b: Seq<u8>)
    requires
        a == b,
    ensures
        spec_chunks(a) == spec_chunks(b),
{
}

/// Chunking is lossless: concatenating the chunks in order reproduces the
/// input exactly; no chunk is empty or longer than `MAX_BLOCK_SIZE`; and an
/// empty input yields no chunks.
pub proof fn lemma_chunks_lossless(d: Seq<u8>)
    ensures
        spec_chunks(d).flatten() == d,
        forall|i: int|
            0 <= i < spec_chunks(d).len() ==> 1 <= (#[trigger] spec_chunks(d)[i]).len()
                <= MAX_BLOCK_SIZE,
        (d.len() == 0) <==> (spec_chunks(d).len() == 0),
    decreases d.len(),
{
    if d.len() == 0 {
        assert(spec_chunks(d).flatten() =~= d);
    } else {
        lemma_cut_len_bounds(d, 1);
        let k = first_cut(d);
        let head = d.take(k);
        let rest = spec_chunks(d.skip(k));
        lemma_chunks_lossless(d.skip(k));
        let cs = seq![head] + rest;
        assert(spec_chunks(d) == cs);
        assert(cs.first() == head);
        assert(cs.drop_first() =~= rest);
        assert(cs.flatten() == head + rest.flatten());
        assert(head + d.skip(k) =~= d);
        assert(spec_chunks(d).flatten() == d);
        assert forall|i: int| 0 <= i < cs.len() implies 1 <= (#[trigger] cs[i]).len()
            <= MAX_BLOCK_SIZE by {
            if i == 0 {
                assert(cs[0] == head);
            } else {
                assert(cs[i] == rest[i - 1]);
            }
        }
    }
}

/// The hash of the window `data[lo..hi]`.
fn window_hash_exec(data: &Vec<u8>, lo: usize, hi: usize) -> (h: u64)
    requires
        lo <= hi <= data@.len(),
    ensures
        h == window_hash(data@.subrange(lo as int, hi as int)),
{
    let mut h: u64 = 0;
    let mut i: usize = lo;
    while i < hi
        invariant
            lo <= i <= hi <= data@.len(),
            h == window_hash(data@.subrange(lo as int, i as int)),
            h < HASH_MODULUS,
        decreases hi - i,
    {
        proof {
            let w = data@.subrange(lo as int, i + 1);
            assert(w.drop_last() =~= data@.subrange(lo as int, i as int));
            assert(w.last() == data@[i as int]);
        }
        h = (h * 31 + (data[i] as u64)) % HASH_MODULUS;
        i += 1;
    }
    h
}

/// The length of the chunk of `data` that starts at `start`.
fn find_cut(data: &Vec<u8>, start: usize) -> (k: usize)
    requires
        start < data@.len(),
    ensures
        k == first_cut(data@.skip(start as int)),
        1 <= k <= data@.len() - start,
        k <= MAX_BLOCK_SIZE,
{
    let ghost d = data@.skip(start as int);
    let n = data.len() - start;
    let mut k: usize = 1;
    proof {
        lemma_cut_len_bounds(d, 1);
    }
    while k < n && k < MAX_BLOCK_SIZE
        invariant
            start < data@.len(),
            d == data@.skip(start as int),
            n == d.len(),
            start + n <= usize::MAX,
            1 <= k <= n,
            k <= MAX_BLOCK_SIZE,
            first_cut(d) == cut_len_from(d, k as int),
        decreases n - k,
    {
        if k >= WINDOW_SIZE {
            proof {
                assert(d.len() == data@.len() - start);
                assert(start + k <= data@.len());
            }
            let h = window_hash_exec(data, start + k - WINDOW_SIZE, start + k);
            proof {
                assert(data@.subrange(start + k - WINDOW_SIZE, start + k as int) =~= d.subrange(
                    k - WINDOW_SIZE,
                    k as int,
                ));
            }
            if h % BOUNDARY_DIVISOR == 0 {
                assert(is_cut_point(d, k as int));
                assert(cut_len_from(d, k as int) == k);
                return k;
            }
        }
        assert(!is_cut_point(d, k as int));
        assert(cut_len_from(d, k as int) == cut_len_from(d, k + 1));
        k += 1;
    }
    if k < n {
        assert(k == MAX_BLOCK_SIZE);
        assert(is_cut_point(d, k as int));
        assert(cut_len_from(d, k as int) == k);
    } else {
        assert(k == n);
        assert(cut_len_from(d, k as int) == d.len());
    }
    k
}

/// A copy of `data[lo..hi]`.
pub fn copy_range(data: &Vec<u8>, lo: usize, hi: usize) -> (r: Vec<u8>)
    requires
        lo <= hi <= data@.len(),
    ensures
        r@ == data@.subrange(lo as int, hi as int),
{
    let mut out: Vec<u8> = Vec::new();
    let mut i: usize = lo;
    while i < hi
        invariant
            lo <= i <= hi <= data@.len(),
            out@ == data@.subrange(lo as int, i as int),
        decreases hi - i,
    {
        out.push(data[i]);
        assert(out@ =~= data@.subrange(lo as int, i + 1));
        i += 1;
    }
    out
}

/// Split a byte stream into its chunks. The result is exactly
/// `spec_chunks(data@)`: a pure, deterministic function of the bytes.
pub fn chunk_data(data: &Vec<u8>) -> (r: Vec<Vec<u8>>)
    ensures
        chunks_view(r@) == spec_chunks(data@),
{
    let mut out: Vec<Vec<u8>> = Vec::new();
    let mut start: usize = 0;
    proof {
        assert(data@.skip(0) =~= data@);
        assert(chunks_view(out@) =~= Seq::<Seq<u8>>::empty());
        assert(chunks_view(out@) + spec_chunks(data@) =~= spec_chunks(data@));
    }
    while start < data.len()
        invariant
            start <= data@.len(),
            spec_chunks(data@) == chunks_view(out@) + spec_chunks(data@.skip(start as int)),
        decreases data@.len() - start,
    {
        let k = find_cut(data, start);
        let chunk = copy_range(data, start, start + k);
        let ghost d = data@.skip(start as int);
        proof {
            assert(d.take(k as int) =~= data@.subrange(start as int, start + k));
            assert(d.skip(k as int) =~= data@.skip(start + k));
            assert(spec_chunks(d) == seq![d.take(first_cut(d))] + spec_chunks(
                d.skip(first_cut(d)),
            ));
        }
        out.push(chunk);
        proof {
            assert(chunks_view(out@) =~= chunks_view(out@.drop_last()) + seq![d.take(k as int)]);
            assert(chunks_view(out@) + spec_chunks(data@.skip(start + k)) =~= (chunks_view(
                out@.drop_last(),
            ) + spec_chunks(d)));
        }
        start += k;
    }
    proof {
        assert(data@.skip(start as int) =~= Seq::<u8>::empty());
        assert(spec_chunks(data@.skip(start as int)) =~= Seq::<Seq<u8>>::empty());
        assert(spec_chunks(data@) =~= chunks_view(out@));
    }
    out
}

} // verus!
