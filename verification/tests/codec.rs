use uuencode_lite::{decode_char, encode_char, uudecode, uuencode};

// Test cases generated with `echo -n ITEM | uuencode -r -`

/// Tests the uuencode function with the string "cat".
#[test]
fn test_cat() {
    let data = b"cat";
    let encoded = uuencode(data).unwrap();
    assert_eq!(encoded, "#8V%T", "can uuencode a small text");
}

/// Tests decoding cat
#[test]
fn test_decode_cat() {
    let data = b"#8V%T";
    let encoded = uudecode(data).unwrap();
    assert_eq!(String::from_utf8_lossy(&encoded), "cat", "can uuencode a small text");
}

/// Tests decoding a line whose final group carries only two real bytes.
#[test]
fn test_can_decode_last_line() {
    let data = b".;W)K+`HQ.38X*2X*,C4`";
    let encoded = uudecode(data).unwrap();
    assert_eq!(String::from_utf8_lossy(&encoded), "ork,\n1968).\n25", "can uudecode a small text");
}

/// Every 6-bit value decodes back to itself after encoding.
#[test]
fn test_char_round_trip() {
    for v in 0u8..=63 {
        let c = encode_char(v).expect("a 6-bit value always encodes");
        assert_eq!(decode_char(c), Some(v));
    }
}

/// Values above six bits are rejected by the character encoder.
#[test]
fn test_encode_char_range() {
    assert_eq!(encode_char(64), None);
    assert_eq!(encode_char(255), None);
    assert_eq!(encode_char(0), Some(b'`'));
    assert_eq!(encode_char(1), Some(b'!'));
    assert_eq!(encode_char(63), Some(b'_'));
}

/// Space and backtick both decode to zero; bytes outside the alphabet fail.
#[test]
fn test_dual_zero() {
    assert_eq!(decode_char(b' '), Some(0));
    assert_eq!(decode_char(b'`'), Some(0));
    assert_eq!(decode_char(b'_'), Some(63));
    assert_eq!(decode_char(0x1f), None);
    assert_eq!(decode_char(0x61), None);
    assert_eq!(decode_char(0), None);
}

/// Exactly 45 bytes make one full line of 61 characters; a 46th byte starts
/// a second line whose prefix decodes to 1.
#[test]
fn test_line_chunking() {
    let data = [7u8; 45];
    let encoded = uuencode(&data).unwrap();
    assert_eq!(encoded.len(), 61);
    assert!(!encoded.contains('\n'));
    assert_eq!(decode_char(encoded.as_bytes()[0]), Some(45));

    let data = [7u8; 46];
    let encoded = uuencode(&data).unwrap();
    let lines: Vec<&str> = encoded.split('\n').collect();
    assert_eq!(lines.len(), 2);
    assert_eq!(lines[0].len(), 61);
    assert_eq!(lines[1].len(), 5);
    assert_eq!(decode_char(lines[1].as_bytes()[0]), Some(1));
    assert_eq!(uudecode(encoded.as_bytes()).unwrap(), data.to_vec());
}

/// An empty buffer encodes to the empty string, and back.
#[test]
fn test_empty() {
    assert_eq!(uuencode(b"").unwrap(), "");
    assert_eq!(uudecode(b"").unwrap(), Vec::<u8>::new());
}

/// A zero-length line is accepted on its own and before further lines.
#[test]
fn test_zero_length_line() {
    assert_eq!(uudecode(b"`").unwrap(), Vec::<u8>::new());
    assert_eq!(uudecode(b"`\n#8V%T").unwrap(), b"cat".to_vec());
}

/// A trailing newline after the last line is tolerated.
#[test]
fn test_trailing_newline() {
    assert_eq!(uudecode(b"#8V%T\n").unwrap(), b"cat".to_vec());
}

/// Raw zero bytes survive the round trip: trimming goes by the declared
/// length, never by a byte's value.
#[test]
fn test_zero_bytes_round_trip() {
    let data = [0u8, 0, 0, 1, 0, 2, 0, 0];
    let encoded = uuencode(&data).unwrap();
    assert_eq!(uudecode(encoded.as_bytes()).unwrap(), data.to_vec());
}

/// Round trip over many lengths, covering every padding shape and the
/// 45-byte line boundary.
#[test]
fn test_round_trip_lengths() {
    for len in 0usize..=140 {
        let data: Vec<u8> = (0..len).map(|i| (i * 37 + len * 11) as u8).collect();
        let encoded = uuencode(&data).unwrap();
        let decoded = uudecode(encoded.as_bytes()).unwrap();
        assert_eq!(decoded, data, "round trip at length {}", len);
    }
}

/// Round trip over all byte values.
#[test]
fn test_round_trip_all_bytes() {
    let data: Vec<u8> = (0u16..256).map(|b| b as u8).collect();
    let encoded = uuencode(&data).unwrap();
    assert_eq!(uudecode(encoded.as_bytes()).unwrap(), data);
}

/// A multi-kilobyte text comes back byte for byte.
#[test]
fn test_large_text_round_trip() {
    let passage = "Imagine, if you can, a small room, hexagonal in shape, \
like the cell of a bee. It is lighted neither by window nor by lamp, yet it \
is filled with a soft radiance. There are no apertures for ventilation, yet \
the air is fresh.\n";
    let mut text = String::new();
    while text.len() < 40_000 {
        text.push_str(passage);
    }
    let data = text.as_bytes();
    let encoded = uuencode(data).unwrap();
    for line in encoded.split('\n') {
        assert!(line.len() <= 61);
    }
    let decoded = uudecode(encoded.as_bytes()).unwrap();
    assert_eq!(decoded, data.to_vec(), "can uuencode and uudecode a large text");
}
