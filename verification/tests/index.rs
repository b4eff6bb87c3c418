use rssync::digest::HashDigest;
use rssync::index::Index;
use rssync::Error;

fn zeros(n: usize) -> Vec<u8> {
    vec![0u8; n]
}

#[test]
fn identical_files_share_blocks_with_refcount_two() {
    let mut index = Index::new();
    let mut tx = index.transaction().unwrap();
    let data = zeros(40);
    tx.index_file(&b"a.txt".to_vec(), 40, 100, &data).unwrap();
    tx.index_file(&b"b.txt".to_vec(), 40, 100, &data).unwrap();
    // zeros(40) chunks as 16,16,8: two distinct chunks, stored once each
    assert_eq!(tx.block_count(), 2);
    let da = tx.digests_of(&b"a.txt".to_vec()).unwrap();
    let db = tx.digests_of(&b"b.txt".to_vec()).unwrap();
    assert_eq!(da.len(), 3);
    let va: Vec<Vec<u8>> = da.iter().map(|h| h.bytes.clone()).collect();
    let vb: Vec<Vec<u8>> = db.iter().map(|h| h.bytes.clone()).collect();
    assert_eq!(va, vb);
    // the trailing 8-byte chunk is cited once by each file
    assert_eq!(tx.refcount(&da[2]), 2);
    // the 16-byte zero chunk is cited twice by each file
    assert_eq!(tx.refcount(&da[0]), 4);
}

#[test]
fn digests_are_twenty_bytes() {
    let mut index = Index::new();
    let mut tx = index.transaction().unwrap();
    tx.index_file(&b"one".to_vec(), 1, 1, &vec![7u8]).unwrap();
    let ds = tx.digests_of(&b"one".to_vec()).unwrap();
    assert_eq!(ds.len(), 1);
    assert_eq!(ds[0].bytes.len(), 20);
}

#[test]
fn reindexing_unchanged_file_is_a_noop() {
    let mut index = Index::new();
    let mut tx = index.transaction().unwrap();
    let data = zeros(40);
    tx.index_file(&b"a".to_vec(), 40, 100, &data).unwrap();
    let blocks_before = tx.block_count();
    let files_before = tx.file_count();
    let digests_before: Vec<Vec<u8>> = tx
        .digests_of(&b"a".to_vec())
        .unwrap()
        .iter()
        .map(|h| h.bytes.clone())
        .collect();
    // same path, same size, same mtime: a no-op
    tx.index_file(&b"a".to_vec(), 40, 100, &data).unwrap();
    assert_eq!(tx.block_count(), blocks_before);
    assert_eq!(tx.file_count(), files_before);
    let digests_after: Vec<Vec<u8>> = tx
        .digests_of(&b"a".to_vec())
        .unwrap()
        .iter()
        .map(|h| h.bytes.clone())
        .collect();
    assert_eq!(digests_after, digests_before);
}

#[test]
fn remove_file_deletes_only_unshared_blocks() {
    let mut index = Index::new();
    let mut tx = index.transaction().unwrap();
    let shared = zeros(40);
    let unique: Vec<u8> = (0..40u32).map(|i| (i * 13 + 5) as u8).collect();
    tx.index_file(&b"a".to_vec(), 40, 1, &shared).unwrap();
    tx.index_file(&b"b".to_vec(), 40, 1, &shared).unwrap();
    tx.index_file(&b"c".to_vec(), 40, 1, &unique).unwrap();
    assert_eq!(tx.block_count(), 3);
    let a_id = tx
        .list_files()
        .into_iter()
        .find(|(_, p)| p == b"a")
        .unwrap()
        .0;
    tx.remove_file(a_id).unwrap();
    // blocks still cited by "b" survive; nothing of "a" was unique
    assert_eq!(tx.block_count(), 3);
    assert!(tx.digests_of(&b"a".to_vec()).is_none());
    let b_id = tx
        .list_files()
        .into_iter()
        .find(|(_, p)| p == b"b")
        .unwrap()
        .0;
    tx.remove_file(b_id).unwrap();
    // now the zero blocks are unreferenced and deleted; "c" keeps its block
    assert_eq!(tx.block_count(), 1);
    assert_eq!(tx.file_count(), 1);
}

#[test]
fn second_transaction_conflicts_and_rollback_discards() {
    let mut index = Index::new();
    let tx = index.transaction().unwrap();
    match index.transaction() {
        Err(Error::TransactionConflict) => {}
        _ => panic!("expected a transaction conflict"),
    }
    tx.rollback(&mut index);
    let mut tx2 = index.transaction().unwrap();
    tx2.index_file(&b"a".to_vec(), 3, 1, &vec![1, 2, 3]).unwrap();
    tx2.rollback(&mut index);
    // the rolled-back write is not visible in the next transaction
    let tx3 = index.transaction().unwrap();
    assert_eq!(tx3.file_count(), 0);
    tx3.commit(&mut index);
}

#[test]
fn commit_makes_changes_visible() {
    let mut index = Index::new();
    let mut tx = index.transaction().unwrap();
    tx.index_file(&b"a".to_vec(), 3, 1, &vec![1, 2, 3]).unwrap();
    tx.commit(&mut index);
    let tx2 = index.transaction().unwrap();
    assert_eq!(tx2.file_count(), 1);
    assert!(tx2.digests_of(&b"a".to_vec()).is_some());
}

#[test]
fn fetch_block_round_trips_small_file() {
    let mut index = Index::new();
    let mut tx = index.transaction().unwrap();
    let data: Vec<u8> = (0..100u32).map(|i| (i * 3 + 1) as u8).collect();
    tx.index_file(&b"f".to_vec(), 100, 1, &data).unwrap();
    let ds = tx.digests_of(&b"f".to_vec()).unwrap();
    let mut joined: Vec<u8> = Vec::new();
    for d in &ds {
        joined.extend_from_slice(&tx.fetch_block(d).unwrap());
    }
    assert_eq!(joined, data);
}

#[test]
fn have_blocks_reports_existence() {
    let mut index = Index::new();
    let mut tx = index.transaction().unwrap();
    tx.index_file(&b"f".to_vec(), 1, 1, &vec![9u8]).unwrap();
    let ds = tx.digests_of(&b"f".to_vec()).unwrap();
    let absent = HashDigest { bytes: vec![0u8; 20] };
    let query = vec![
        HashDigest { bytes: ds[0].bytes.clone() },
        absent,
    ];
    assert_eq!(tx.have_blocks(&query), vec![true, false]);
}
