use bcounter::wire::{decode, encode};

#[test]
fn a_line_is_twenty_bytes_big_endian() {
    let bytes = encode(&[(0x0102_0304, 0x0506_0708_090A_0B0C, 1)]);
    assert_eq!(
        bytes,
        vec![1, 2, 3, 4, 5, 6, 7, 8, 9, 10, 11, 12, 0, 0, 0, 0, 0, 0, 0, 1]
    );
}

#[test]
fn decoding_undoes_encoding() {
    let report = vec![(0, 0, 0), (7, 300, 20), (u32::MAX, u64::MAX, u64::MAX - 1)];
    let bytes = encode(&report);
    assert_eq!(bytes.len(), 60);
    assert_eq!(decode(&bytes), report);
}

#[test]
fn encoding_undoes_decoding_of_whole_lines() {
    let bytes: Vec<u8> = (0..40).collect();
    assert_eq!(encode(&decode(&bytes)), bytes);
}

#[test]
fn an_unfinished_line_is_left_out() {
    let mut bytes = encode(&[(9, 8, 7)]);
    bytes.extend_from_slice(&[1, 2, 3]);
    assert_eq!(decode(&bytes), vec![(9, 8, 7)]);
    assert_eq!(decode(&bytes[..19]), vec![]);
}

#[test]
fn an_empty_report_is_no_bytes() {
    assert!(encode(&[]).is_empty());
    assert!(decode(&[]).is_empty());
}
