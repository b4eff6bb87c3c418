use rssync::digest::HashDigest;
use rssync::index::{Index, IndexTransaction};
use rssync::sync::{
    apply_deletions, apply_sync, enumerate, plan_deletions, plan_transfers, FetchedBlock,
};

fn populated_source() -> IndexTransaction {
    let mut index = Index::new();
    let mut tx = index.transaction().unwrap();
    tx.index_file(&b"one".to_vec(), 40, 1, &vec![0u8; 40]).unwrap();
    tx.index_file(&b"two".to_vec(), 40, 2, &(0..40u32).map(|i| (i * 13 + 5) as u8).collect())
        .unwrap();
    tx.index_file(&b"three".to_vec(), 40, 3, &(0..40u32).map(|i| (i * 17 + 9) as u8).collect())
        .unwrap();
    tx
}

fn fetch_for(src: &IndexTransaction, missing: &Vec<HashDigest>) -> Vec<FetchedBlock> {
    missing
        .iter()
        .map(|d| FetchedBlock {
            digest: HashDigest { bytes: d.bytes.clone() },
            bytes: src.fetch_block(d).unwrap(),
        })
        .collect()
}

#[test]
fn sync_into_empty_sink_converges_and_replans_nothing() {
    let src = populated_source();
    let source_files = enumerate(&src);
    let mut sink_index = Index::new();
    let mut sink = sink_index.transaction().unwrap();

    let transfers = plan_transfers(&source_files, &sink);
    assert_eq!(transfers.len(), 3);
    let fetched: Vec<Option<Vec<FetchedBlock>>> =
        transfers.iter().map(|t| Some(fetch_for(&src, &t.missing))).collect();
    let (flags, _) = apply_sync(&mut sink, &transfers, &fetched);
    assert_eq!(flags, vec![true, true, true]);

    // the sink now maps every source path to the source's digest sequence
    for sf in &source_files {
        let got: Vec<Vec<u8>> = sink
            .digests_of(&sf.path)
            .unwrap()
            .iter()
            .map(|h| h.bytes.clone())
            .collect();
        let want: Vec<Vec<u8>> = sf.digests.iter().map(|h| h.bytes.clone()).collect();
        assert_eq!(got, want);
    }

    // a second pass plans no transfers and no deletions: zero blocks move
    let again = plan_transfers(&source_files, &sink);
    assert_eq!(again.len(), 0);
    let deletions = plan_deletions(&source_files, &sink);
    assert_eq!(deletions.len(), 0);
}

#[test]
fn failed_transfer_leaves_entry_untouched_while_others_complete() {
    let src = populated_source();
    let source_files = enumerate(&src);
    let mut sink_index = Index::new();
    let mut sink = sink_index.transaction().unwrap();

    let transfers = plan_transfers(&source_files, &sink);
    assert_eq!(transfers.len(), 3);
    // simulate a transport failure for the second file only
    let fetched: Vec<Option<Vec<FetchedBlock>>> = transfers
        .iter()
        .enumerate()
        .map(|(i, t)| if i == 1 { None } else { Some(fetch_for(&src, &t.missing)) })
        .collect();
    let (flags, _) = apply_sync(&mut sink, &transfers, &fetched);
    assert_eq!(flags, vec![true, false, true]);
    assert!(sink.digests_of(&transfers[0].path).is_some());
    assert!(sink.digests_of(&transfers[1].path).is_none());
    assert!(sink.digests_of(&transfers[2].path).is_some());
}

#[test]
fn corrupted_fetch_is_rejected_and_entry_unchanged() {
    let src = populated_source();
    let source_files = enumerate(&src);
    let mut sink_index = Index::new();
    let mut sink = sink_index.transaction().unwrap();
    let transfers = plan_transfers(&source_files, &sink);
    // hand back garbage bytes under the right digest name
    let mut bad = fetch_for(&src, &transfers[0].missing);
    bad[0].bytes = vec![0xAAu8; 4];
    let fetched = vec![Some(bad)];
    let one = vec![transfers.into_iter().next().unwrap()];
    let (flags, _) = apply_sync(&mut sink, &one, &fetched);
    assert_eq!(flags, vec![false]);
    assert!(sink.digests_of(&one[0].path).is_none());
}

#[test]
fn sink_only_paths_are_planned_for_deletion() {
    let src = populated_source();
    let source_files = enumerate(&src);
    let mut sink_index = Index::new();
    let mut sink = sink_index.transaction().unwrap();
    sink.index_file(&b"stale".to_vec(), 4, 9, &vec![1, 2, 3, 4]).unwrap();
    let deletions = plan_deletions(&source_files, &sink);
    assert_eq!(deletions.len(), 1);
    apply_deletions(&mut sink, &deletions);
    assert!(sink.digests_of(&b"stale".to_vec()).is_none());
    assert_eq!(sink.file_count(), 0);
}
