use p2p_sys::chunker::{chunk_metadata, hash_data, hex_encode, split_into_chunks, CHUNK_SIZE};

#[test]
fn sha256_of_abc_in_hex() {
    assert_eq!(
        hash_data(b"abc"),
        "ba7816bf8f01cfea414140de5dae2223b00361a396177a9cb410ff61f20015ad"
    );
}

#[test]
fn sha256_of_nothing_in_hex() {
    assert_eq!(
        hash_data(b""),
        "e3b0c44298fc1c149afbf4c8996fb92427ae41e4649b934ca495991b7852b855"
    );
}

#[test]
fn hex_is_lowercase_two_digits_a_byte() {
    assert_eq!(hex_encode(&[0x00, 0xff, 0x1a, 0xa0]), "00ff1aa0");
    assert_eq!(hex_encode(&[]), "");
}

#[test]
fn split_cuts_at_the_size() {
    let data: Vec<u8> = (0..10u8).collect();
    let parts = split_into_chunks(&data, 4);
    assert_eq!(parts, vec![vec![0, 1, 2, 3], vec![4, 5, 6, 7], vec![8, 9]]);
    assert_eq!(split_into_chunks(&data, 10), vec![data.clone()]);
    assert_eq!(split_into_chunks(&[], 4), Vec::<Vec<u8>>::new());
}

#[test]
fn split_parts_put_together_give_the_data() {
    let data: Vec<u8> = (0..1000u32).map(|x| (x % 251) as u8).collect();
    let parts = split_into_chunks(&data, 7);
    let joined: Vec<u8> = parts.concat();
    assert_eq!(joined, data);
    assert!(parts[..parts.len() - 1].iter().all(|p| p.len() == 7));
}

#[test]
fn metadata_of_two_and_a_half_chunks() {
    let data = vec![7u8; 2 * CHUNK_SIZE + CHUNK_SIZE / 2];
    let meta = chunk_metadata(&data);
    let sizes: Vec<usize> = meta.iter().map(|m| m.size).collect();
    assert_eq!(sizes, vec![CHUNK_SIZE, CHUNK_SIZE, CHUNK_SIZE / 2]);
    assert_eq!(meta[0].hash, hash_data(&vec![7u8; CHUNK_SIZE]));
    assert_eq!(meta[0].hash, meta[1].hash);
    assert_ne!(meta[1].hash, meta[2].hash);
}

#[test]
fn metadata_of_an_empty_file_is_empty() {
    assert!(chunk_metadata(&[]).is_empty());
}
