use g2p::data::{entries, Entry};

#[test]
fn archive_records_are_found_in_order() {
    let mut blob: Vec<u8> = vec![3, 0, 0, 0];
    blob.extend_from_slice(b"a/b");
    blob.extend_from_slice(&2u64.to_le_bytes());
    blob.extend_from_slice(&[1, 2]);
    blob.extend_from_slice(&1u32.to_le_bytes());
    blob.extend_from_slice(b"c");
    blob.extend_from_slice(&0u64.to_le_bytes());
    let e = entries(&blob);
    assert_eq!(
        e,
        [
            Entry { path_start: 4, path_end: 7, data_start: 15, data_end: 17 },
            Entry { path_start: 21, path_end: 22, data_start: 30, data_end: 30 },
        ]
    );
    assert_eq!(&blob[e[0].path_start..e[0].path_end], b"a/b");
    assert_eq!(&blob[e[0].data_start..e[0].data_end], &[1, 2]);
    assert!(entries(&[]).is_empty());
}
