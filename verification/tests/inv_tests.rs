use zebra_network::inv::{BlockHash, InventoryHash, SerializationError, TxHash};

fn encode(h: &InventoryHash) -> Vec<u8> {
    let mut out = Vec::new();
    h.zcash_serialize(&mut out);
    out
}

fn sample_hash() -> [u8; 32] {
    let mut bytes = [0u8; 32];
    for (i, b) in bytes.iter_mut().enumerate() {
        *b = (7 * i + 1) as u8;
    }
    bytes
}

#[test]
fn round_trip_error() {
    let h = InventoryHash::Error;
    assert_eq!(InventoryHash::zcash_deserialize(&encode(&h)), Ok(h));
}

#[test]
fn round_trip_tx() {
    let h = InventoryHash::Tx(TxHash(sample_hash()));
    assert_eq!(InventoryHash::zcash_deserialize(&encode(&h)), Ok(h));
}

#[test]
fn round_trip_block() {
    let h = InventoryHash::Block(BlockHash(sample_hash()));
    assert_eq!(InventoryHash::zcash_deserialize(&encode(&h)), Ok(h));
}

#[test]
fn round_trip_filtered_block() {
    let h = InventoryHash::FilteredBlock(BlockHash(sample_hash()));
    assert_eq!(InventoryHash::zcash_deserialize(&encode(&h)), Ok(h));
}

#[test]
fn encode_tx_exact_bytes() {
    let hash = sample_hash();
    let out = encode(&InventoryHash::Tx(TxHash(hash)));
    assert_eq!(out.len(), 36);
    assert_eq!(&out[0..4], &[1, 0, 0, 0]);
    assert_eq!(&out[4..36], &hash[..]);
}

#[test]
fn encode_error_all_zero() {
    assert_eq!(encode(&InventoryHash::Error), vec![0u8; 36]);
}

#[test]
fn encode_filtered_block_code_is_little_endian_three() {
    let out = encode(&InventoryHash::FilteredBlock(BlockHash([0xcd; 32])));
    assert_eq!(&out[0..4], &[3, 0, 0, 0]);
}

#[test]
fn decode_block_exact_bytes() {
    let mut bytes = vec![2, 0, 0, 0];
    let hash = sample_hash();
    bytes.extend_from_slice(&hash);
    assert_eq!(
        InventoryHash::zcash_deserialize(&bytes),
        Ok(InventoryHash::Block(BlockHash(hash)))
    );
}

#[test]
fn decode_unknown_code_is_parse_error() {
    let mut bytes = vec![4, 0, 0, 0];
    bytes.extend_from_slice(&[0u8; 32]);
    assert_eq!(
        InventoryHash::zcash_deserialize(&bytes),
        Err(SerializationError::ParseError)
    );
}

#[test]
fn decode_large_code_is_parse_error() {
    let mut bytes = vec![0xff, 0xff, 0xff, 0xff];
    bytes.extend_from_slice(&[0u8; 32]);
    assert_eq!(
        InventoryHash::zcash_deserialize(&bytes),
        Err(SerializationError::ParseError)
    );
}

#[test]
fn decode_nonzero_high_bytes_is_parse_error() {
    // The code is read as a full little-endian u32, not as its first byte.
    let mut bytes = vec![1, 1, 0, 0];
    bytes.extend_from_slice(&[0u8; 32]);
    assert_eq!(
        InventoryHash::zcash_deserialize(&bytes),
        Err(SerializationError::ParseError)
    );
}

#[test]
fn decode_short_input_is_eof() {
    assert_eq!(
        InventoryHash::zcash_deserialize(&vec![]),
        Err(SerializationError::UnexpectedEof)
    );
    assert_eq!(
        InventoryHash::zcash_deserialize(&vec![0u8; 35]),
        Err(SerializationError::UnexpectedEof)
    );
}

#[test]
fn decode_ignores_trailing_bytes() {
    let h = InventoryHash::Tx(TxHash(sample_hash()));
    let mut bytes = encode(&h);
    bytes.push(0xee);
    bytes.push(0xff);
    assert_eq!(InventoryHash::zcash_deserialize(&bytes), Ok(h));
}

#[test]
fn decode_error_code_ignores_hash_bytes() {
    let mut bytes = vec![0, 0, 0, 0];
    bytes.extend_from_slice(&[0xabu8; 32]);
    assert_eq!(
        InventoryHash::zcash_deserialize(&bytes),
        Ok(InventoryHash::Error)
    );
}

#[test]
fn serialize_appends_to_existing_output() {
    let mut out = vec![0x11, 0x22];
    InventoryHash::Error.zcash_serialize(&mut out);
    assert_eq!(out.len(), 38);
    assert_eq!(&out[0..2], &[0x11, 0x22]);
}
