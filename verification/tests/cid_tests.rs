use repostore::cid::U232;
use repostore::hashing::hash_data;
use repostore::codec::bytes_to_hex_string;

#[test]
fn test_equal_224() {
    let base = U232::new();
    assert!(base.equal_224(&base));
    assert!(base == base);

    let mut comp = base.clone();
    comp.set_inequailty_byte(0x05);
    assert!(base.equal_224(&comp));
    assert!(base != comp);
}

#[test]
fn from_bytes_pads_and_truncates() {
    let short = U232::from_u8arr(&[1, 2, 3]);
    let b = short.to_be_bytes();
    assert_eq!(b.len(), 29);
    assert_eq!(&b[..26], &[0u8; 26]);
    assert_eq!(&b[26..], &[1, 2, 3]);

    let long_src: Vec<u8> = (0..40u8).collect();
    let long = U232::from_u8arr(&long_src);
    assert_eq!(long.to_be_bytes(), &long_src[..29]);
}

#[test]
fn hash_is_sha3_224_with_zero_front_byte() {
    // The digest of empty input pins the hash function down.
    let h = hash_data(&[]);
    let hex = bytes_to_hex_string(h.to_be_bytes());
    assert_eq!(
        hex,
        "006B4E03423667DBB73B6E15454F0EB1ABD4597F9A1B078E3F5B5A6BC7"
    );
    assert_eq!(h.to_be_bytes().len(), 29);
    assert_eq!(h.to_be_bytes()[0], 0);

    // Different content, different digest.
    let h2 = hash_data(&[1, 2, 3]);
    assert!(h != h2);
    assert!(!h.equal_224(&h2));
}
