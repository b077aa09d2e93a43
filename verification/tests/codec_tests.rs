use repostore::codec::{
    bytes_to_hex_string, generate_vec_diff, get_u32, get_u64, get_utf8_value,
    hex_string_to_bytes, read_string_sequence, save_cut, save_slice, u64_to_usize,
    value_to_utf8_bytes,
};

fn round_trip(n: u64) {
    let enc = value_to_utf8_bytes(n);
    let (v, len) = get_utf8_value(enc.as_slice());
    assert_eq!(v, n);
    assert_eq!(len, enc.len());
}

#[test]
fn vlq_round_trips() {
    for n in [
        0u64,
        1,
        16,
        20,
        127,
        128,
        255,
        2047,
        2048,
        0xFFFF,
        0x1F_FFFF,
        0x3FF_FFFF,
        0x7FFF_FFFF,
        0xF_FFFF_FFFF,
        0x3FF_FFFF_FFFF,
        (1u64 << 41) - 1,
        1u64 << 41,
        (1u64 << 42) - 1,
    ] {
        round_trip(n);
    }
}

#[test]
fn vlq_single_bytes() {
    assert_eq!(value_to_utf8_bytes(0), vec![0u8]);
    assert_eq!(value_to_utf8_bytes(127), vec![127u8]);
    assert_eq!(value_to_utf8_bytes(16), vec![16u8]);
}

#[test]
fn vlq_two_bytes() {
    // 128 = head 0xC2, continuation 0x80.
    assert_eq!(value_to_utf8_bytes(128), vec![0xC2u8, 0x80]);
    let (v, len) = get_utf8_value(&[0xC2, 0x80]);
    assert_eq!((v, len), (128, 2));
}

#[test]
fn vlq_truncated_input_degrades() {
    // A head byte promising more bytes than are present yields (0, 0).
    let (v, len) = get_utf8_value(&[0xC2]);
    assert_eq!((v, len), (0, 0));
}

#[test]
fn fixed_integers_pad_left() {
    assert_eq!(get_u32(&[1, 2]), 0x0102);
    assert_eq!(get_u32(&[0xDE, 0xAD, 0xBE, 0xEF, 0x99]), 0xDEAD_BEEF);
    assert_eq!(get_u64(&[1]), 1);
    assert_eq!(get_u64(&[1, 0, 0, 0, 0, 0, 0, 0]), 1 << 56);
}

#[test]
fn string_sequences_stop_at_nul() {
    let (s, n) = read_string_sequence(&[b'a', b'b', 0, b'c']);
    assert_eq!(s, vec![b'a', b'b']);
    assert_eq!(n, 3);

    // An empty run still consumes the terminator.
    let (s, n) = read_string_sequence(&[0, b'x']);
    assert_eq!(s.len(), 0);
    assert_eq!(n, 1);

    // No terminator: one byte more than the input is reported.
    let (s, n) = read_string_sequence(&[b'a', b'b']);
    assert_eq!(s, vec![b'a', b'b']);
    assert_eq!(n, 3);
}

#[test]
fn hex_both_ways() {
    assert_eq!(bytes_to_hex_string(&[0xAB, 0x01, 0xF0]), "AB01F0");
    assert_eq!(bytes_to_hex_string(&[]), "");
    assert_eq!(hex_string_to_bytes(&String::from("AB01F0")), vec![0xAB, 0x01, 0xF0]);
    // Lower case is tolerated; an odd trailing digit is dropped.
    assert_eq!(hex_string_to_bytes(&String::from("ab01f")), vec![0xAB, 0x01]);
    // Other characters count as zero.
    assert_eq!(hex_string_to_bytes(&String::from("zz")), vec![0x00]);
}

#[test]
fn safe_slicing() {
    let data = [1u8, 2, 3];
    assert_eq!(save_slice(&data, 1), &[2, 3]);
    assert_eq!(save_slice(&data, 3), &[0]);
    assert_eq!(save_cut(&data, 2), &[1, 2]);
    assert_eq!(save_cut(&data, 9), &[1, 2, 3]);
    assert_eq!(u64_to_usize(7), 7);
}

#[test]
fn vec_diff_positions() {
    let old = vec![1u8, 2, 3, 4];
    let new = vec![1u8, 9, 3, 8];
    let diff = generate_vec_diff(&old, &new).unwrap();
    assert_eq!(diff, vec![(1usize, 9u8), (3usize, 8u8)]);
    assert!(generate_vec_diff(&old, &vec![1u8, 2]).is_none());
}
