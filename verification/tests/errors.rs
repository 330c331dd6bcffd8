use uuencode_lite::{uudecode, UUEncodeError};

fn expect_err(input: &[u8]) -> UUEncodeError {
    match uudecode(input) {
        Ok(v) => panic!("expected an error, decoded {} bytes", v.len()),
        Err(e) => e,
    }
}

/// An invalid length prefix is reported at character 0 of its line.
#[test]
fn test_bad_prefix() {
    let e = expect_err(b"\x07");
    assert_eq!(e.line(), 0);
    assert_eq!(e.character(), 0);
    assert_eq!(e.message(), "Invalid character in input: 0x07 at line 0 character 0");
}

/// An invalid data character is reported at its offset within the line's
/// data portion.
#[test]
fn test_bad_data_character() {
    let e = expect_err(b"#8V\x07T");
    assert_eq!(e.line(), 0);
    assert_eq!(e.character(), 2);
    assert_eq!(e.message(), "Invalid character in input: 0x07 at line 0 character 2");
}

/// Faults on a later line carry that line's index.
#[test]
fn test_bad_character_on_second_line() {
    let e = expect_err(b"#8V%T\n#8\xffV%T");
    assert_eq!(e.line(), 1);
    assert_eq!(e.character(), 1);
    assert_eq!(e.message(), "Invalid character in input: 0xff at line 1 character 1");
}

/// A line that promises more raw bytes than its data characters can carry
/// is reported as truncated, at the start of the incomplete group.
#[test]
fn test_truncated_line() {
    let e = expect_err(b"#8V");
    assert_eq!(e.line(), 0);
    assert_eq!(e.character(), 0);
    assert_eq!(
        e.message(),
        "Truncated input: the line needs more data characters at line 0 character 0"
    );
}

/// Truncation after one full group is reported at the second group's start.
#[test]
fn test_truncated_second_group() {
    let e = expect_err(b"&8V%T8V");
    assert_eq!(e.line(), 0);
    assert_eq!(e.character(), 4);
}

/// The first fault wins: decoding stops at the earliest bad character.
#[test]
fn test_first_fault_wins() {
    let e = expect_err(b"#\x018V\x02");
    assert_eq!(e.line(), 0);
    assert_eq!(e.character(), 0);
    assert_eq!(e.message(), "Invalid character in input: 0x01 at line 0 character 0");
}
