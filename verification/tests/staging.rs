use file_encryptr::{
    derive_key, encrypt_container, get_and_validate_wal_files, parse_wal_index, Error, WALEntry,
};

fn names(list: &[&str]) -> Vec<Vec<u8>> {
    list.iter().map(|s| s.as_bytes().to_vec()).collect()
}

#[test]
fn wal_file_names_round_trip_their_index() {
    assert_eq!(file_encryptr::wal_file_name(1), b"1_wal".to_vec());
    assert_eq!(file_encryptr::wal_file_name(0), b"0_wal".to_vec());
    assert_eq!(file_encryptr::wal_file_name(1024), b"1024_wal".to_vec());
    assert_eq!(
        file_encryptr::wal_file_name(u32::MAX),
        b"4294967295_wal".to_vec()
    );
    assert_eq!(parse_wal_index(&file_encryptr::wal_file_name(37)), 37);
}

#[test]
fn wal_index_parsing() {
    assert_eq!(parse_wal_index(&b"12_wal".to_vec()), 12);
    assert_eq!(parse_wal_index(&b"1_wal".to_vec()), 1);
    assert_eq!(parse_wal_index(&b"007_wal".to_vec()), 7);
    assert_eq!(parse_wal_index(&b"_wal".to_vec()), 0);
    assert_eq!(parse_wal_index(&b"abc_wal".to_vec()), 0);
    assert_eq!(parse_wal_index(&b"99999999999_wal".to_vec()), 0);
    assert_eq!(parse_wal_index(&b"42".to_vec()), 42);
    assert_eq!(parse_wal_index(&b"".to_vec()), 0);
}

#[test]
fn complete_staging_set_is_sorted_and_accepted() {
    let out = get_and_validate_wal_files(names(&["3_wal", "1_wal", "2_wal", "notes.txt"]))
        .expect("complete set");
    assert_eq!(out, names(&["1_wal", "2_wal", "3_wal"]));
}

#[test]
fn empty_staging_set_is_accepted() {
    let out = get_and_validate_wal_files(names(&["README.md"])).expect("no staged files");
    assert_eq!(out, Vec::<Vec<u8>>::new());
}

#[test]
fn missing_staged_entry_fails_assembly() {
    // Entry 2 was removed before assembly: the whole operation fails.
    match get_and_validate_wal_files(names(&["1_wal", "3_wal"])) {
        Err(Error::SequenceError) => {}
        other => panic!("gap gave {other:?}"),
    }
}

#[test]
fn duplicate_staged_entry_fails_assembly() {
    match get_and_validate_wal_files(names(&["1_wal", "1_wal", "2_wal"])) {
        Err(Error::SequenceError) => {}
        other => panic!("duplicate gave {other:?}"),
    }
}

#[test]
fn staging_does_not_start_at_one_fails_assembly() {
    match get_and_validate_wal_files(names(&["2_wal", "3_wal"])) {
        Err(Error::SequenceError) => {}
        other => panic!("offset start gave {other:?}"),
    }
    // An unparsable prefix counts as index 0, which is never valid.
    match get_and_validate_wal_files(names(&["x_wal"])) {
        Err(Error::SequenceError) => {}
        other => panic!("unparsable prefix gave {other:?}"),
    }
}

#[test]
fn container_entries_are_contiguous_and_ordered() {
    // Three chunks plus the metadata entry: indices 0, 1, 2, 3 in order.
    let data = vec![9u8; 2 * file_encryptr::CHUNK_SIZE + 100];
    let key = derive_key(&b"pw".to_vec());
    let container = encrypt_container(&data, &b"f".to_vec(), &key).expect("encrypt");

    let mut pos = 0usize;
    let mut indices = Vec::new();
    let mut payload_total = 0usize;
    while pos < container.len() {
        let body_len =
            u32::from_le_bytes(container[pos..pos + 4].try_into().unwrap()) as usize;
        let body = container[pos + 4..pos + 4 + body_len].to_vec();
        let entry = WALEntry::from_bytes(&body).expect("entry decodes");
        if entry.chunk_index > 0 {
            payload_total += entry.encrypted_data.len() - 16;
        }
        indices.push(entry.chunk_index);
        pos += 4 + body_len;
    }
    assert_eq!(indices, vec![0u64, 1, 2, 3]);
    assert_eq!(payload_total, data.len());
}
