use subtle::fingerprint::{fingerprint_blocks, fingerprint_bytes, FingerprintError};

#[test]
fn zero_block_fingerprint_is_its_size() {
    let data = vec![0u8; 65536];
    let fp = fingerprint_bytes(&data).unwrap();
    assert_eq!(fp.value, 65536);
    assert_eq!(fp.to_hex(), "0000000000010000");
}

#[test]
fn words_are_little_endian() {
    let mut data = vec![0u8; 131072];
    data[0] = 1;
    data[9] = 2;
    let fp = fingerprint_bytes(&data).unwrap();
    assert_eq!(fp.value, 131072 + 1 + 0x200);
    assert_eq!(fp.to_hex(), "0000000000020201");
}

#[test]
fn sum_wraps_around() {
    let data = vec![0xffu8; 65536];
    let fp = fingerprint_bytes(&data).unwrap();
    // 65536 + 2 * 8192 * (2^64 - 1) modulo 2^64
    assert_eq!(fp.value, 65536u64.wrapping_sub(16384));
    assert_eq!(fp.to_hex().len(), 16);
    assert_eq!(fp.to_hex(), "000000000000c000");
}

#[test]
fn fingerprint_twice_is_equal() {
    let data: Vec<u8> = (0..200000u32).map(|i| (i * 7 % 251) as u8).collect();
    let a = fingerprint_bytes(&data).unwrap();
    let b = fingerprint_bytes(&data).unwrap();
    assert_eq!(a, b);
    assert_eq!(a.to_hex(), b.to_hex());
}

#[test]
fn sampled_byte_change_changes_fingerprint() {
    let data: Vec<u8> = (0..200000u32).map(|i| (i * 7 % 251) as u8).collect();
    let base = fingerprint_bytes(&data).unwrap();
    let mut head = data.clone();
    head[100] ^= 1;
    assert_ne!(fingerprint_bytes(&head).unwrap(), base);
    let mut tail = data.clone();
    tail[199999] ^= 0x80;
    assert_ne!(fingerprint_bytes(&tail).unwrap(), base);
    let mut middle = data.clone();
    middle[100000] ^= 1;
    assert_eq!(fingerprint_bytes(&middle).unwrap(), base);
}

#[test]
fn size_change_changes_fingerprint() {
    let head = vec![3u8; 65536];
    let tail = vec![5u8; 65536];
    let a = fingerprint_blocks(100000, &head, &tail).unwrap();
    let b = fingerprint_blocks(100001, &head, &tail).unwrap();
    assert_eq!(b.value, a.value + 1);
}

#[test]
fn blocks_agree_with_whole_file() {
    let data: Vec<u8> = (0..150000u32).map(|i| (i % 256) as u8).collect();
    let whole = fingerprint_bytes(&data).unwrap();
    let parts = fingerprint_blocks(150000, &data[..65536], &data[150000 - 65536..]).unwrap();
    assert_eq!(whole, parts);
}

#[test]
fn small_file_is_refused() {
    let data = vec![0u8; 65535];
    assert_eq!(fingerprint_bytes(&data), Err(FingerprintError::Precondition));
    assert_eq!(fingerprint_bytes(&[]), Err(FingerprintError::Precondition));
    let block = vec![0u8; 65536];
    assert_eq!(fingerprint_blocks(65535, &block, &block), Err(FingerprintError::Precondition));
}

#[test]
fn short_block_is_refused() {
    let block = vec![0u8; 65536];
    let short = vec![0u8; 1000];
    assert_eq!(fingerprint_blocks(70000, &block, &short), Err(FingerprintError::ShortBlock));
    assert_eq!(fingerprint_blocks(70000, &short, &block), Err(FingerprintError::ShortBlock));
}

#[test]
fn top_byte_change_in_doubly_sampled_word_cancels() {
    let data = vec![0u8; 65536];
    let base = fingerprint_bytes(&data).unwrap();
    let mut changed = data.clone();
    changed[7] = 128;
    assert_eq!(fingerprint_bytes(&changed).unwrap(), base);
    let mut other = data.clone();
    other[7] = 64;
    assert_ne!(fingerprint_bytes(&other).unwrap(), base);
}
