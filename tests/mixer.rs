use rendevous_hash::hash::{digest_or_zero, mix, murmur_hash, HashError};

#[test]
fn mix_of_empty_input_is_zero() {
    assert_eq!(mix(b""), Ok(0));
}

#[test]
fn mix_matches_reference_vectors() {
    assert_eq!(mix(b""), Ok(0x0000_0000));
    assert_eq!(mix(b"a"), Ok(0x3c25_69b2));
    assert_eq!(mix(b"hello"), Ok(0x248b_fa47));
}

#[test]
fn mix_handles_every_tail_length() {
    assert_eq!(mix(b"abc"), Ok(0xb3dd_93fa));
    assert_eq!(mix(b"abcd"), Ok(0x43ed_676a));
    assert_eq!(mix(b"hello world"), Ok(0x5e92_8f0f));
    assert_eq!(
        mix(b"The quick brown fox jumps over the lazy dog"),
        Ok(0x2e4f_f723)
    );
}

#[test]
fn mix_covers_tail_and_block_paths_on_zero_bytes() {
    assert_eq!(mix(&[0u8]), Ok(0x514e_28b7));
    assert_eq!(mix(&[0u8, 0, 0]), Ok(0x85f0_b427));
    assert_eq!(mix(&[0u8, 0, 0, 0]), Ok(0x2362_f9de));
}

#[test]
fn mix_accepts_bytes_that_are_not_utf8() {
    assert_eq!(mix(&[0xffu8, 0xfe]), Ok(0x96c8_6850));
}

#[test]
fn mix_is_deterministic() {
    let data = b"key-42/bucket-7";
    let first = mix(data);
    let second = mix(data);
    assert!(first.is_ok());
    assert_eq!(first, second);
}

#[test]
fn murmur_hash_hashes_utf8_bytes() {
    assert_eq!(murmur_hash(""), 0);
    assert_eq!(murmur_hash("a"), 0x3c25_69b2);
    assert_eq!(murmur_hash("hello"), 0x248b_fa47);
    assert_eq!(murmur_hash("hello"), murmur_hash("hello"));
}

#[test]
fn digest_or_zero_defaults_failures_to_zero() {
    assert_eq!(digest_or_zero(Ok(17)), 17);
    assert_eq!(digest_or_zero(Err(HashError::Read)), 0);
    assert_eq!(digest_or_zero(Err(HashError::InputTooLong)), 0);
}
