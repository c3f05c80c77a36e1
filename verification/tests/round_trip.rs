use file_encryptr::{
    decrypt_chunk, decrypt_container, derive_key, encrypt_chunk, encrypt_container, show_info,
    Error, CHUNK_SIZE,
};

fn sample_data(size: usize) -> Vec<u8> {
    let mut data = Vec::with_capacity(size);
    for i in 0..size {
        data.push((i % 251) as u8);
    }
    data
}

fn assert_round_trip(size: usize) {
    let data = sample_data(size);
    let key = derive_key(&b"sample_password".to_vec());
    let name = b"input.bin".to_vec();
    let container = encrypt_container(&data, &name, &key).expect("encrypt");
    let (meta, out) = decrypt_container(&container, &key).expect("decrypt");
    assert_eq!(out, data);
    assert_eq!(meta.file_size(), size as u64);
    let mut padded = name.clone();
    padded.resize(256, 0u8);
    assert_eq!(meta.file_name().as_slice(), padded.as_slice());
}

#[test]
fn test_encrypt_decrypt_round_trip() {
    let key = vec![0u8; 32];
    let nonce = vec![0u8; 12];
    let chunk = b"Test data to encrypt".to_vec();

    let encrypted = encrypt_chunk(&chunk, &key, &nonce).unwrap();
    let decrypted = decrypt_chunk(encrypted, &key, &nonce).unwrap();

    assert_eq!(chunk, decrypted, "Decrypted data does not match original");
    println!("Encryption and decryption successful!");
}

#[test]
fn round_trip_empty_file() {
    assert_round_trip(0);
}

#[test]
fn round_trip_one_byte() {
    assert_round_trip(1);
}

#[test]
fn round_trip_exactly_one_chunk() {
    assert_round_trip(CHUNK_SIZE);
}

#[test]
fn round_trip_several_chunks_plus_remainder() {
    assert_round_trip(2 * CHUNK_SIZE + 100);
}

#[test]
fn show_info_reads_header_only() {
    let data = sample_data(10);
    let key = derive_key(&b"pw".to_vec());
    let container = encrypt_container(&data, &b"doc.txt".to_vec(), &key).expect("encrypt");
    let meta = show_info(&container, &key).expect("show info");
    assert_eq!(meta.file_size(), 10);
    assert_eq!(&meta.file_name()[0..7], b"doc.txt");
    assert!(meta.file_name()[7..].iter().all(|&b| b == 0));
}

#[test]
fn tampering_any_payload_bit_fails_decryption() {
    let data = sample_data(10);
    let key = derive_key(&b"pw".to_vec());
    let container = encrypt_container(&data, &b"f".to_vec(), &key).expect("encrypt");

    // Record 0: 4-byte prefix + (8 + 8 index/length) + 312-byte payload + 12-byte nonce.
    let meta_record_len = 4 + 28 + 296 + 16;
    // The chunk record's ciphertext+tag bytes sit after its prefix, index and length.
    let payload_start = meta_record_len + 4 + 16;
    let payload_end = payload_start + 10 + 16;
    assert_eq!(container.len(), payload_end + 12);

    for pos in payload_start..payload_end {
        for bit in 0..8 {
            let mut tampered = container.clone();
            tampered[pos] ^= 1u8 << bit;
            match decrypt_container(&tampered, &key) {
                Err(Error::AuthenticationFailure) => {}
                other => panic!("tampered byte {pos} bit {bit} gave {other:?}"),
            }
        }
    }
}

#[test]
fn tampering_metadata_ciphertext_fails_decryption() {
    let data = sample_data(10);
    let key = derive_key(&b"pw".to_vec());
    let container = encrypt_container(&data, &b"f".to_vec(), &key).expect("encrypt");
    let mut tampered = container.clone();
    // Inside the metadata entry's ciphertext: after prefix, index and length.
    tampered[4 + 16 + 5] ^= 0x40;
    match decrypt_container(&tampered, &key) {
        Err(Error::AuthenticationFailure) => {}
        other => panic!("metadata tampering gave {other:?}"),
    }
}

#[test]
fn wrong_key_is_rejected_for_metadata_and_chunks() {
    let data = sample_data(100);
    let key = derive_key(&b"right password".to_vec());
    let wrong = derive_key(&b"wrong password".to_vec());
    assert_ne!(key, wrong);
    let container = encrypt_container(&data, &b"f".to_vec(), &key).expect("encrypt");

    // The whole-container walk stops at the metadata entry.
    match decrypt_container(&container, &wrong) {
        Err(Error::AuthenticationFailure) => {}
        other => panic!("wrong key on metadata gave {other:?}"),
    }

    // A chunk entry alone is rejected under the wrong key too.
    let meta_record_len = 4 + 28 + 296 + 16;
    let chunk_record = &container[meta_record_len..];
    let body_len = u32::from_le_bytes(chunk_record[0..4].try_into().unwrap()) as usize;
    let body = chunk_record[4..4 + body_len].to_vec();
    let entry = file_encryptr::WALEntry::from_bytes(&body).expect("entry decodes");
    let nonce = entry.nonce.clone();
    match decrypt_chunk(entry.encrypted_data, &wrong, &nonce) {
        Err(Error::AuthenticationFailure) => {}
        other => panic!("wrong key on chunk gave {other:?}"),
    }
}

#[test]
fn truncated_container_is_malformed() {
    let data = sample_data(10);
    let key = derive_key(&b"pw".to_vec());
    let container = encrypt_container(&data, &b"f".to_vec(), &key).expect("encrypt");
    // Cut inside the last record's body.
    let truncated = container[0..container.len() - 5].to_vec();
    match decrypt_container(&truncated, &key) {
        Err(Error::MalformedContainer) => {}
        other => panic!("truncated container gave {other:?}"),
    }
    // A bare length prefix with no body at all.
    match decrypt_container(&vec![9u8, 0u8], &key) {
        Err(Error::MalformedContainer) => {}
        other => panic!("short container gave {other:?}"),
    }
}
