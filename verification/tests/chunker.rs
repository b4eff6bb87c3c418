use rssync::chunker::{chunk_data, MAX_BLOCK_SIZE, WINDOW_SIZE};

#[test]
fn empty_stream_yields_no_chunks() {
    let chunks = chunk_data(&vec![]);
    assert_eq!(chunks.len(), 0);
}

#[test]
fn zero_bytes_cut_at_window_size() {
    // A window of zero bytes hashes to zero, which satisfies the boundary
    // predicate, so an all-zero stream cuts at every full window.
    let data = vec![0u8; 40];
    let chunks = chunk_data(&data);
    let lens: Vec<usize> = chunks.iter().map(|c| c.len()).collect();
    assert_eq!(lens, vec![WINDOW_SIZE, WINDOW_SIZE, 40 - 2 * WINDOW_SIZE]);
}

#[test]
fn chunking_is_deterministic() {
    let data: Vec<u8> = (0..5000u32).map(|i| (i * 7 + 13) as u8).collect();
    let a = chunk_data(&data);
    let b = chunk_data(&data);
    assert_eq!(a, b);
}

#[test]
fn chunks_concatenate_to_input_and_respect_max() {
    let data: Vec<u8> = (0..50000u32).map(|i| (i * 31 + 7) as u8).collect();
    let chunks = chunk_data(&data);
    let mut joined: Vec<u8> = Vec::new();
    for c in &chunks {
        assert!(!c.is_empty());
        assert!(c.len() <= MAX_BLOCK_SIZE);
        joined.extend_from_slice(c);
    }
    assert_eq!(joined, data);
}

#[test]
fn appending_keeps_leading_boundaries() {
    let mut data: Vec<u8> = (0..20000u32).map(|i| (i * 11 + 3) as u8).collect();
    let before = chunk_data(&data);
    data.extend_from_slice(&[1, 2, 3, 4, 5, 6, 7, 8, 9, 10]);
    let after = chunk_data(&data);
    // every chunk of the original except its final one is unchanged
    for i in 0..before.len().saturating_sub(1) {
        assert_eq!(before[i], after[i]);
    }
}
