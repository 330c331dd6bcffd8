//! The encoder: the character-level primitive and the full-buffer encoder.

use vstd::prelude::*;

use crate::ascii::ascii_to_string;
use crate::error::UUEncodeError;
use crate::model::{all_ascii, chars_of, enc_char, encode_group, encode_groups, encode_line,
    encoded, lemma_mask6, NEWLINE};

verus! {

/// Encodes a 6-bit value into its printable character: backtick for 0,
/// `value + 32` for 1..=63. Returns `None` for values above 63, which no
/// well-formed producer hands in (all packed units are masked to six bits).
pub fn encode_char(value: u8) -> (r: Option<u8>)
    ensures
        value <= 63 ==> r == Some(enc_char(value)),
        value > 63 ==> r is None,
{
    if value == 0 {
        Some(96)
    } else if value <= 63 {
        Some(value + 32)
    } else {
        None
    }
}

/// The character for a 6-bit unit whose range the caller has already
/// established, routed through `encode_char`.
fn enc_char_byte(value: u8) -> (r: u8)
    requires
        value <= 63,
    ensures
        r == enc_char(value),
        33 <= r <= 96,
{
    match encode_char(value) {
        Some(c) => c,
        None => {
            proof {
                assert(false);
            }
            0
        },
    }
}

/// Encodes a raw buffer into uuencoded text: chunks of 45 bytes, one line
/// per chunk, each line a length-prefix character followed by four data
/// characters per group of up to three raw bytes, lines separated by single
/// newlines with none after the last. An empty buffer encodes to the empty
/// string. The `Result` is kept for callers that treat encoding uniformly
/// with decoding; encoding itself never fails.
pub fn uuencode(data: &[u8]) -> (r: Result<String, UUEncodeError>)
    ensures
        r matches Ok(s) && s@ == chars_of(encoded(data@)),
{
    let mut out: Vec<u8> = Vec::new();
    if data.len() == 0 {
        return Ok(ascii_to_string(out));
    }
    let mut pos: usize = 0;
    proof {
        assert(data@.skip(0) =~= data@);
        assert(out@ + encoded(data@) =~= encoded(data@));
    }
    loop
        invariant_except_break
            pos < data@.len(),
            out@ + encoded(data@.skip(pos as int)) == encoded(data@),
        invariant
            data@.len() <= usize::MAX,
            all_ascii(out@),
        ensures
            out@ == encoded(data@),
        decreases data@.len() - pos,
    {
        let remaining = data.len() - pos;
        let chunk_len: usize = if remaining < 45 {
            remaining
        } else {
            45
        };
        let ghost chunk: Seq<u8> = data@.subrange(pos as int, pos as int + chunk_len as int);
        let ghost out0 = out@;
        out.push(enc_char_byte(chunk_len as u8));
        proof {
            assert(chunk.len() == chunk_len);
            assert(chunk.skip(0) =~= chunk);
            assert(out@ + encode_groups(chunk) =~= out0 + encode_line(chunk));
        }
        let mut i: usize = 0;
        while i < chunk_len
            invariant
                data@.len() <= usize::MAX,
                pos < data@.len(),
                chunk_len <= 45,
                pos + chunk_len <= data@.len(),
                chunk == data@.subrange(pos as int, pos as int + chunk_len as int),
                i <= chunk_len,
                all_ascii(out@),
                out@ + encode_groups(chunk.skip(i as int)) == out0 + encode_line(chunk),
            decreases chunk_len - i,
        {
            let b0 = data[pos + i];
            let b1 = if i + 1 < chunk_len {
                data[pos + i + 1]
            } else {
                0
            };
            let b2 = if i + 2 < chunk_len {
                data[pos + i + 2]
            } else {
                0
            };
            proof {
                lemma_mask6((b0 >> 2));
                lemma_mask6((b0 << 4) | (b1 >> 4));
                lemma_mask6((b1 << 2) | (b2 >> 6));
                lemma_mask6(b2);
            }
            let ghost out_before = out@;
            out.push(enc_char_byte((b0 >> 2) & 0x3f));
            out.push(enc_char_byte(((b0 << 4) | (b1 >> 4)) & 0x3f));
            out.push(enc_char_byte(((b1 << 2) | (b2 >> 6)) & 0x3f));
            out.push(enc_char_byte(b2 & 0x3f));
            proof {
                let rest = chunk.skip(i as int);
                assert(rest[0] == b0);
                assert(rest.len() >= 2 ==> rest[1] == b1);
                assert(rest.len() >= 3 ==> rest[2] == b2);
                assert(out@ =~= out_before + encode_group(b0, b1, b2));
            }
            if chunk_len - i > 3 {
                proof {
                    let rest = chunk.skip(i as int);
                    assert(rest.skip(3) =~= chunk.skip(i + 3));
                    assert(out@ + encode_groups(chunk.skip(i + 3)) =~= out0 + encode_line(chunk));
                }
                i = i + 3;
            } else {
                proof {
                    assert(chunk.skip(chunk_len as int) =~= Seq::<u8>::empty());
                    assert(out@ + encode_groups(chunk.skip(chunk_len as int)) =~= out0
                        + encode_line(chunk));
                }
                i = chunk_len;
            }
        }
        proof {
            assert(out@ =~= out0 + encode_line(chunk));
        }
        let ghost old_pos = pos as int;
        pos = pos + chunk_len;
        if pos < data.len() {
            out.push(NEWLINE);
            proof {
                assert(data@.skip(old_pos).len() > 45);
                assert(chunk =~= data@.skip(old_pos).take(45));
                assert(data@.skip(old_pos).skip(45) =~= data@.skip(pos as int));
                assert(out@ + encoded(data@.skip(pos as int)) =~= out0 + encoded(
                    data@.skip(old_pos),
                ));
            }
        } else {
            proof {
                assert(data@.skip(old_pos).len() == chunk_len);
                assert(chunk =~= data@.skip(old_pos));
                assert(out@ =~= out0 + encoded(data@.skip(old_pos)));
                assert(out@ =~= encoded(data@));
            }
            break;
        }
    }
    Ok(ascii_to_string(out))
}

} // verus!
