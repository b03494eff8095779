use uart_bridge::codec::{bytes_to_hex, char_to_hex_digit, decode_hex, encode_hex, hex_char, hex_to_bytes};

#[test]
fn encode_exact_literal() {
    assert_eq!(encode_hex(&[0x00, 0xFF, 0x1A]), b"00FF1A".to_vec());
}

#[test]
fn encode_empty() {
    assert_eq!(encode_hex(&[]), Vec::<u8>::new());
}

#[test]
fn encode_is_twice_as_long_and_upper_case() {
    let out = encode_hex(&[0xAB, 0xCD, 0xEF, 0x01]);
    assert_eq!(out, b"ABCDEF01".to_vec());
}

#[test]
fn round_trip_all_byte_values() {
    let bytes: Vec<u8> = (0..=255u8).collect();
    let hex = encode_hex(&bytes);
    assert_eq!(hex.len(), 512);
    assert_eq!(decode_hex(&hex), bytes);
}

#[test]
fn decode_skips_invalid_pair() {
    assert_eq!(decode_hex(b"41ZZ42"), vec![0x41, 0x42]);
}

#[test]
fn decode_skips_pair_with_one_bad_character() {
    assert_eq!(decode_hex(b"4G4142"), vec![0x41, 0x42]);
    assert_eq!(decode_hex(b"G4"), Vec::<u8>::new());
}

#[test]
fn decode_odd_length_drops_trailing_character() {
    assert_eq!(decode_hex(b"41424"), vec![0x41, 0x42]);
    assert_eq!(decode_hex(b"4"), Vec::<u8>::new());
}

#[test]
fn decode_is_case_insensitive() {
    assert_eq!(decode_hex(b"aBcD"), vec![0xAB, 0xCD]);
    assert_eq!(decode_hex(b"ff"), vec![0xFF]);
}

#[test]
fn decode_empty() {
    assert_eq!(decode_hex(b""), Vec::<u8>::new());
}

#[test]
fn hex_digits() {
    assert_eq!(char_to_hex_digit(b'0'), Some(0));
    assert_eq!(char_to_hex_digit(b'9'), Some(9));
    assert_eq!(char_to_hex_digit(b'A'), Some(10));
    assert_eq!(char_to_hex_digit(b'f'), Some(15));
    assert_eq!(char_to_hex_digit(b'g'), None);
    assert_eq!(char_to_hex_digit(b'/'), None);
    assert_eq!(char_to_hex_digit(b':'), None);
    assert_eq!(char_to_hex_digit(b'@'), None);
    assert_eq!(hex_char(0), b'0');
    assert_eq!(hex_char(11), b'B');
}

#[test]
fn bytes_to_hex_writes_only_whole_pairs() {
    let mut out = [b'.'; 5];
    bytes_to_hex(&[0x12, 0x34, 0x56], &mut out);
    assert_eq!(&out, b"1234.");
}

#[test]
fn bytes_to_hex_leaves_tail_untouched() {
    let mut out = [b'.'; 6];
    bytes_to_hex(&[0x9F], &mut out);
    assert_eq!(&out, b"9F....");
}

#[test]
fn hex_to_bytes_stops_at_capacity() {
    let mut out = [0u8; 2];
    let n = hex_to_bytes(b"010203", &mut out);
    assert_eq!(n, 2);
    assert_eq!(out, [0x01, 0x02]);
}

#[test]
fn hex_to_bytes_counts_written_bytes() {
    let mut out = [0xEEu8; 4];
    let n = hex_to_bytes(b"0AXY0B", &mut out);
    assert_eq!(n, 2);
    assert_eq!(out, [0x0A, 0x0B, 0xEE, 0xEE]);
}
