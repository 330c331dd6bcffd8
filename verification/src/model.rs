//! The mathematical model of the codec: what an encoded text looks like for a
//! given raw buffer, and what decoding a text yields, including the exact
//! location of the first fault in a malformed input.

use vstd::prelude::*;

verus! {

/// The line separator in encoded output.
pub const NEWLINE: u8 = 10;

/// Maps a 6-bit unit to its printable character: backtick for zero (the
/// legacy convention, since space is fragile in transit), `value + 32`
/// otherwise.
pub open spec fn enc_char(v: u8) -> u8
    recommends
        v <= 63,
{
    if v == 0 {
        96u8
    } else {
        (v + 32) as u8
    }
}

/// Inverse of `enc_char`, tolerant of both historical encodings of zero:
/// space (0x20) and backtick (0x60) both map to 0; any other character in
/// 0x21..=0x5f maps to `c - 32`; everything else is invalid.
pub open spec fn dec_char(c: u8) -> Option<u8> {
    if c == 96 {
        Some(0u8)
    } else if 32 <= c && c <= 95 {
        Some((c - 32) as u8)
    } else {
        None
    }
}

/// The four characters that encode one group of three raw bytes, using the
/// standard bit layout: six high bits of `b0`; two low bits of `b0` and four
/// high bits of `b1`; four low bits of `b1` and two high bits of `b2`; six
/// low bits of `b2`.
pub open spec fn encode_group(b0: u8, b1: u8, b2: u8) -> Seq<u8> {
    seq![
        enc_char((b0 >> 2) & 0x3f),
        enc_char(((b0 << 4) | (b1 >> 4)) & 0x3f),
        enc_char(((b1 << 2) | (b2 >> 6)) & 0x3f),
        enc_char(b2 & 0x3f),
    ]
}

/// The data characters of one line: the chunk's bytes taken in groups of
/// three, the final group zero-padded if the chunk length is not a multiple
/// of three.
pub open spec fn encode_groups(chunk: Seq<u8>) -> Seq<u8>
    decreases chunk.len(),
{
    if chunk.len() == 0 {
        Seq::empty()
    } else if chunk.len() <= 3 {
        encode_group(
            chunk[0],
            if chunk.len() >= 2 { chunk[1] } else { 0u8 },
            if chunk.len() >= 3 { chunk[2] } else { 0u8 },
        )
    } else {
        encode_group(chunk[0], chunk[1], chunk[2]) + encode_groups(chunk.skip(3))
    }
}

/// One full line: the length prefix (the chunk's raw byte count, encoded as a
/// character) followed by the chunk's data characters.
pub open spec fn encode_line(chunk: Seq<u8>) -> Seq<u8>
    recommends
        chunk.len() <= 45,
{
    seq![enc_char(chunk.len() as u8)] + encode_groups(chunk)
}

/// The whole encoded text: the raw buffer cut into chunks of 45 bytes, one
/// line per chunk, lines separated by single newlines and with no trailing
/// newline. An empty buffer encodes to the empty text (zero lines).
pub open spec fn encoded(data: Seq<u8>) -> Seq<u8>
    decreases data.len(),
{
    if data.len() == 0 {
        Seq::empty()
    } else if data.len() <= 45 {
        encode_line(data)
    } else {
        encode_line(data.take(45)) + seq![NEWLINE] + encoded(data.skip(45))
    }
}

/// The three raw bytes reconstructed from one group of four 6-bit units.
pub open spec fn group_bytes(u0: u8, u1: u8, u2: u8, u3: u8) -> Seq<u8> {
    seq![
        (u0 << 2) | (u1 >> 4),
        (u1 << 4) | (u2 >> 2),
        (u2 << 6) | u3,
    ]
}

/// What decoding the data portion of one line yields.
#[verifier::ext_equal]
pub enum LineOutcome {
    /// The line's raw bytes, and the number of data characters consumed.
    Done { bytes: Seq<u8>, used: nat },
    /// A character outside the alphabet, at this offset in the data portion.
    BadChar { character: nat, byte: u8 },
    /// Fewer than four characters remain where a group was expected; the
    /// offset is that of the start of the incomplete group.
    Short { character: nat },
}

/// Extends a partial line decode: `acc` raw bytes and `used0` characters
/// were already consumed ahead of the outcome `o` of the line's remainder.
pub open spec fn line_prepend(acc: Seq<u8>, used0: nat, o: LineOutcome) -> LineOutcome {
    match o {
        LineOutcome::Done { bytes, used } => LineOutcome::Done {
            bytes: acc + bytes,
            used: (used0 + used) as nat,
        },
        other => other,
    }
}

/// Decodes data characters in groups of four until `need` raw bytes have been
/// produced, trimming the padding bytes of the final group. `off` is the
/// offset of `text` within the line's data portion, used to report fault
/// locations.
pub open spec fn decode_groups(text: Seq<u8>, need: nat, off: nat) -> LineOutcome
    decreases need,
{
    if need == 0 {
        LineOutcome::Done { bytes: Seq::empty(), used: 0 }
    } else if text.len() < 4 {
        LineOutcome::Short { character: off }
    } else if dec_char(text[0]) is None {
        LineOutcome::BadChar { character: off, byte: text[0] }
    } else if dec_char(text[1]) is None {
        LineOutcome::BadChar { character: off + 1, byte: text[1] }
    } else if dec_char(text[2]) is None {
        LineOutcome::BadChar { character: off + 2, byte: text[2] }
    } else if dec_char(text[3]) is None {
        LineOutcome::BadChar { character: off + 3, byte: text[3] }
    } else {
        let head = group_bytes(
            dec_char(text[0]).unwrap(),
            dec_char(text[1]).unwrap(),
            dec_char(text[2]).unwrap(),
            dec_char(text[3]).unwrap(),
        );
        if need <= 3 {
            LineOutcome::Done { bytes: head.take(need as int), used: 4 }
        } else {
            line_prepend(head, 4, decode_groups(text.skip(4), (need - 3) as nat, off + 4))
        }
    }
}

/// What decoding a whole text yields.
#[verifier::ext_equal]
pub enum DecodeOutcome {
    /// The reconstructed raw buffer.
    Decoded { bytes: Seq<u8> },
    /// A character outside the alphabet. `character` is 0 for a bad length
    /// prefix, and otherwise the offset within the line's data portion.
    BadChar { line: nat, character: nat, byte: u8 },
    /// The line's declared length requires more data characters than remain.
    Truncated { line: nat, character: nat },
}

/// Prepends already-reconstructed raw bytes to the outcome of decoding the
/// rest of a text.
pub open spec fn with_prefix(acc: Seq<u8>, o: DecodeOutcome) -> DecodeOutcome {
    match o {
        DecodeOutcome::Decoded { bytes } => DecodeOutcome::Decoded { bytes: acc + bytes },
        other => other,
    }
}

/// Decodes a text line by line, starting at line index `line`: a length
/// prefix, the data characters its count requires, then one separator
/// character, skipped without inspection, wherever the text goes on.
/// Decoding is complete when no length prefix remains.
pub open spec fn decoded_from(text: Seq<u8>, line: nat) -> DecodeOutcome
    decreases text.len(),
{
    if text.len() == 0 {
        DecodeOutcome::Decoded { bytes: Seq::empty() }
    } else {
        match dec_char(text[0]) {
            None => DecodeOutcome::BadChar { line, character: 0, byte: text[0] },
            Some(count) => match decode_groups(text.skip(1), count as nat, 0) {
                LineOutcome::BadChar { character, byte } => DecodeOutcome::BadChar {
                    line,
                    character,
                    byte,
                },
                LineOutcome::Short { character } => DecodeOutcome::Truncated { line, character },
                LineOutcome::Done { bytes, used } => {
                    if text.len() <= 1 + used {
                        DecodeOutcome::Decoded { bytes }
                    } else {
                        with_prefix(bytes, decoded_from(text.skip(2 + used as int), (line + 1) as nat))
                    }
                },
            },
        }
    }
}

/// What decoding a whole text yields, counting lines from 0.
pub open spec fn decoded(text: Seq<u8>) -> DecodeOutcome {
    decoded_from(text, 0)
}

/// Every masked 6-bit unit is in the range `enc_char` is made for.
pub(crate) proof fn lemma_mask6(x: u8)
    by (bit_vector)
    ensures
        x & 0x3f <= 63,
{
}

/// Prepending nothing to a line outcome changes nothing.
pub(crate) proof fn lemma_line_prepend_empty(o: LineOutcome)
    ensures
        line_prepend(Seq::empty(), 0, o) == o,
{
    match o {
        LineOutcome::Done { bytes, used } => {
            assert(Seq::empty() + bytes =~= bytes);
            assert(line_prepend(Seq::empty(), 0, o) =~= o);
        },
        _ => {},
    }
}

/// Prepending twice is prepending the concatenation.
pub(crate) proof fn lemma_line_prepend_assoc(acc: Seq<u8>, used0: nat, g: Seq<u8>, o: LineOutcome)
    ensures
        line_prepend(acc, used0, line_prepend(g, 4, o)) == line_prepend(
            acc + g,
            (used0 + 4) as nat,
            o,
        ),
{
    match o {
        LineOutcome::Done { bytes, used } => {
            assert(acc + (g + bytes) =~= (acc + g) + bytes);
            assert(line_prepend(acc, used0, line_prepend(g, 4, o)) =~= line_prepend(
                acc + g,
                (used0 + 4) as nat,
                o,
            ));
        },
        _ => {},
    }
}

/// Prepending nothing to a decode outcome changes nothing.
pub(crate) proof fn lemma_with_prefix_empty(o: DecodeOutcome)
    ensures
        with_prefix(Seq::empty(), o) == o,
{
    match o {
        DecodeOutcome::Decoded { bytes } => {
            assert(Seq::empty() + bytes =~= bytes);
            assert(with_prefix(Seq::empty(), o) =~= o);
        },
        _ => {},
    }
}

/// Prepending twice is prepending the concatenation.
pub(crate) proof fn lemma_with_prefix_assoc(a: Seq<u8>, b: Seq<u8>, o: DecodeOutcome)
    ensures
        with_prefix(a, with_prefix(b, o)) == with_prefix(a + b, o),
{
    match o {
        DecodeOutcome::Decoded { bytes } => {
            assert(a + (b + bytes) =~= (a + b) + bytes);
            assert(with_prefix(a, with_prefix(b, o)) =~= with_prefix(a + b, o));
        },
        _ => {},
    }
}

/// The characters of a sequence of bytes below 0x80, one character per byte.
pub open spec fn chars_of(s: Seq<u8>) -> Seq<char> {
    s.map_values(|b: u8| b as char)
}

/// Holds when every byte of `s` is below 0x80.
pub open spec fn all_ascii(s: Seq<u8>) -> bool {
    forall|i: int| 0 <= i < s.len() ==> s[i] < 128
}

} // verus!
