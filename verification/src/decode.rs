//! The decoder: the character-level primitive and the full-buffer decoder.

use vstd::arithmetic::div_mod::lemma_fundamental_div_mod_converse;
use vstd::prelude::*;

use crate::error::{invalid_char_message, invalid_char_msg, truncated_message, truncated_msg,
    UUEncodeError};
use crate::model::{dec_char, decode_groups, decoded, decoded_from, group_bytes,
    lemma_line_prepend_assoc, lemma_line_prepend_empty, lemma_with_prefix_assoc,
    lemma_with_prefix_empty, line_prepend, with_prefix, DecodeOutcome, LineOutcome};

verus! {

/// Decodes a printable character back into its 6-bit value. Space and
/// backtick both decode to 0, since both appear as the zero glyph in
/// real-world encoded data; any other character in 0x21..=0x5f decodes to
/// `value - 32`; everything else is invalid.
pub fn decode_char(value: u8) -> (r: Option<u8>)
    ensures
        r == dec_char(value),
        r matches Some(v) ==> v <= 63,
{
    if value == 96 {
        Some(0)
    } else if 32 <= value && value <= 95 {
        Some(value - 32)
    } else {
        None
    }
}

/// An upper bound on the raw bytes a text of `encoded_len` characters can
/// decode to: three raw bytes for every four characters, rounded up.
fn encoded_to_raw_len(encoded_len: usize) -> (r: usize)
    ensures
        r == ((encoded_len + 3) as int / 4) * 3,
{
    let q = encoded_len / 4;
    let rem = encoded_len % 4;
    proof {
        if rem == 0 {
            lemma_fundamental_div_mod_converse(encoded_len as int + 3, 4, q as int, 3);
        } else {
            lemma_fundamental_div_mod_converse(
                encoded_len as int + 3,
                4,
                q as int + 1,
                rem as int - 1,
            );
        }
    }
    let groups = if rem == 0 {
        q
    } else {
        q + 1
    };
    groups * 3
}

/// Decodes uuencoded text back into the raw bytes it represents, line by
/// line: a length prefix, then data characters in groups of four until the
/// declared count of raw bytes is reached (the final group's padding bytes
/// are trimmed by that count, so raw zero bytes survive), then one separator
/// character, skipped without inspection, wherever the text goes on. An
/// empty input decodes to an empty buffer. The first invalid character, or a
/// line with fewer data characters than its declared length requires, fails
/// the whole call with that fault's line, character offset and message.
pub fn uudecode(data: &[u8]) -> (r: Result<Vec<u8>, UUEncodeError>)
    ensures
        match r {
            Ok(v) => decoded(data@) == (DecodeOutcome::Decoded { bytes: v@ }),
            Err(e) => match decoded(data@) {
                DecodeOutcome::Decoded { .. } => false,
                DecodeOutcome::BadChar { line, character, byte } => e.line_spec() == line
                    && e.character_spec() == character && e.msg_spec() == invalid_char_msg(byte),
                DecodeOutcome::Truncated { line, character } => e.line_spec() == line
                    && e.character_spec() == character && e.msg_spec() == truncated_msg(),
            },
        },
{
    let mut out: Vec<u8> = Vec::with_capacity(encoded_to_raw_len(data.len()));
    let mut pos: usize = 0;
    let mut cur_line: usize = 0;
    proof {
        assert(data@.skip(0) =~= data@);
        lemma_with_prefix_empty(decoded_from(data@, 0));
    }
    loop
        invariant_except_break
            with_prefix(out@, decoded_from(data@.skip(pos as int), cur_line as nat)) == decoded(
                data@,
            ),
        invariant
            data@.len() <= usize::MAX,
            pos <= data@.len(),
            cur_line <= pos,
        ensures
            decoded(data@) == (DecodeOutcome::Decoded { bytes: out@ }),
        decreases data@.len() - pos,
    {
        if pos >= data.len() {
            proof {
                assert(data@.skip(pos as int) =~= Seq::<u8>::empty());
                assert(out@ + Seq::<u8>::empty() =~= out@);
            }
            break;
        }
        let ghost text0 = data@.skip(pos as int);
        let ghost line_start = pos as int;
        let ghost out_line0 = out@;
        let prefix_byte = data[pos];
        proof {
            assert(text0[0] == prefix_byte);
        }
        let count = match decode_char(prefix_byte) {
            Some(v) => v,
            None => {
                proof {
                    assert(decoded_from(text0, cur_line as nat) == (DecodeOutcome::BadChar {
                        line: cur_line as nat,
                        character: 0,
                        byte: prefix_byte,
                    }));
                }
                return Err(UUEncodeError::new(cur_line, 0, invalid_char_message(prefix_byte)));
            },
        };
        pos = pos + 1;
        let line_len: usize = count as usize;
        let ghost data_start = line_start + 1;
        proof {
            assert(text0.skip(1) =~= data@.skip(data_start));
        }
        let mut out_count: usize = 0;
        let mut in_off: usize = 0;
        let ghost mut built: Seq<u8> = Seq::empty();
        proof {
            if line_len > 0 {
                lemma_line_prepend_empty(
                    decode_groups(data@.skip(data_start), line_len as nat, 0),
                );
            }
            assert(out@ =~= out_line0 + built);
        }
        while out_count < line_len
            invariant
                data@.len() <= usize::MAX,
                line_len <= 63,
                line_len == count as usize,
                data_start == line_start + 1,
                0 <= line_start < data@.len(),
                pos as int == data_start + in_off,
                pos <= data@.len(),
                out_count <= 66,
                cur_line <= line_start,
                out@ == out_line0 + built,
                text0 == data@.skip(line_start),
                text0[0] == prefix_byte,
                dec_char(prefix_byte) == Some(count),
                out_count < line_len ==> decode_groups(data@.skip(data_start), line_len as nat, 0)
                    == line_prepend(
                    built,
                    in_off as nat,
                    decode_groups(
                        data@.skip(pos as int),
                        (line_len - out_count) as nat,
                        in_off as nat,
                    ),
                ),
                out_count >= line_len ==> decode_groups(data@.skip(data_start), line_len as nat, 0)
                    == (LineOutcome::Done { bytes: built, used: in_off as nat }),
                with_prefix(out_line0, decoded_from(text0, cur_line as nat)) == decoded(data@),
            decreases line_len + 3 - out_count,
        {
            if data.len() - pos < 4 {
                proof {
                    assert(data@.skip(pos as int).len() < 4);
                    assert(decode_groups(
                        data@.skip(pos as int),
                        (line_len - out_count) as nat,
                        in_off as nat,
                    ) == (LineOutcome::Short { character: in_off as nat }));
                    assert(decode_groups(data@.skip(data_start), line_len as nat, 0)
                        == (LineOutcome::Short { character: in_off as nat }));
                    assert(text0.skip(1) =~= data@.skip(data_start));
                    assert(decoded_from(text0, cur_line as nat) == (DecodeOutcome::Truncated {
                        line: cur_line as nat,
                        character: in_off as nat,
                    }));
                }
                return Err(UUEncodeError::new(cur_line, in_off, truncated_message()));
            }
            let c0 = data[pos];
            let c1 = data[pos + 1];
            let c2 = data[pos + 2];
            let c3 = data[pos + 3];
            proof {
                let t = data@.skip(pos as int);
                assert(t[0] == c0 && t[1] == c1 && t[2] == c2 && t[3] == c3);
            }
            let u0 = match decode_char(c0) {
                Some(v) => v,
                None => {
                    proof {
                        assert(decode_groups(
                            data@.skip(pos as int),
                            (line_len - out_count) as nat,
                            in_off as nat,
                        ) == (LineOutcome::BadChar { character: in_off as nat, byte: c0 }));
                        assert(decode_groups(data@.skip(data_start), line_len as nat, 0)
                            == (LineOutcome::BadChar { character: in_off as nat, byte: c0 }));
                        assert(text0.skip(1) =~= data@.skip(data_start));
                        assert(decoded_from(text0, cur_line as nat) == (DecodeOutcome::BadChar {
                            line: cur_line as nat,
                            character: in_off as nat,
                            byte: c0,
                        }));
                    }
                    return Err(UUEncodeError::new(cur_line, in_off, invalid_char_message(c0)));
                },
            };
            let u1 = match decode_char(c1) {
                Some(v) => v,
                None => {
                    proof {
                        assert(decode_groups(
                            data@.skip(pos as int),
                            (line_len - out_count) as nat,
                            in_off as nat,
                        ) == (LineOutcome::BadChar { character: (in_off + 1) as nat, byte: c1 }));
                        assert(decode_groups(data@.skip(data_start), line_len as nat, 0)
                            == (LineOutcome::BadChar {
                            character: (in_off + 1) as nat,
                            byte: c1,
                        }));
                        assert(text0.skip(1) =~= data@.skip(data_start));
                        assert(decoded_from(text0, cur_line as nat) == (DecodeOutcome::BadChar {
                            line: cur_line as nat,
                            character: (in_off + 1) as nat,
                            byte: c1,
                        }));
                    }
                    return Err(
                        UUEncodeError::new(cur_line, in_off + 1, invalid_char_message(c1)),
                    );
                },
            };
            let u2 = match decode_char(c2) {
                Some(v) => v,
                None => {
                    proof {
                        assert(decode_groups(
                            data@.skip(pos as int),
                            (line_len - out_count) as nat,
                            in_off as nat,
                        ) == (LineOutcome::BadChar { character: (in_off + 2) as nat, byte: c2 }));
                        assert(decode_groups(data@.skip(data_start), line_len as nat, 0)
                            == (LineOutcome::BadChar {
                            character: (in_off + 2) as nat,
                            byte: c2,
                        }));
                        assert(text0.skip(1) =~= data@.skip(data_start));
                        assert(decoded_from(text0, cur_line as nat) == (DecodeOutcome::BadChar {
                            line: cur_line as nat,
                            character: (in_off + 2) as nat,
                            byte: c2,
                        }));
                    }
                    return Err(
                        UUEncodeError::new(cur_line, in_off + 2, invalid_char_message(c2)),
                    );
                },
            };
            let u3 = match decode_char(c3) {
                Some(v) => v,
                None => {
                    proof {
                        assert(decode_groups(
                            data@.skip(pos as int),
                            (line_len - out_count) as nat,
                            in_off as nat,
                        ) == (LineOutcome::BadChar { character: (in_off + 3) as nat, byte: c3 }));
                        assert(decode_groups(data@.skip(data_start), line_len as nat, 0)
                            == (LineOutcome::BadChar {
                            character: (in_off + 3) as nat,
                            byte: c3,
                        }));
                        assert(text0.skip(1) =~= data@.skip(data_start));
                        assert(decoded_from(text0, cur_line as nat) == (DecodeOutcome::BadChar {
                            line: cur_line as nat,
                            character: (in_off + 3) as nat,
                            byte: c3,
                        }));
                    }
                    return Err(
                        UUEncodeError::new(cur_line, in_off + 3, invalid_char_message(c3)),
                    );
                },
            };
            let b0 = (u0 << 2) | (u1 >> 4);
            let b1 = (u1 << 4) | (u2 >> 2);
            let b2 = (u2 << 6) | u3;
            let ghost g = group_bytes(u0, u1, u2, u3);
            out.push(b0);
            if out_count + 1 < line_len {
                out.push(b1);
            }
            if out_count + 2 < line_len {
                out.push(b2);
            }
            proof {
                let need = (line_len - out_count) as nat;
                let taken: int = if need >= 3 {
                    3
                } else {
                    need as int
                };
                if need == 1 {
                    assert(g.take(1) =~= seq![b0]);
                } else if need == 2 {
                    assert(g.take(2) =~= seq![b0, b1]);
                } else {
                    assert(g.take(3) =~= seq![b0, b1, b2]);
                }
                assert(out@ =~= out_line0 + (built + g.take(taken)));
                let t = data@.skip(pos as int);
                if need <= 3 {
                    assert(decode_groups(t, need, in_off as nat) == (LineOutcome::Done {
                        bytes: g.take(need as int),
                        used: 4,
                    }));
                } else {
                    assert(t.skip(4) =~= data@.skip(pos as int + 4));
                    let inner = decode_groups(
                        data@.skip(pos as int + 4),
                        (need - 3) as nat,
                        (in_off + 4) as nat,
                    );
                    assert(decode_groups(t, need, in_off as nat) == line_prepend(g, 4, inner));
                    lemma_line_prepend_assoc(built, in_off as nat, g, inner);
                    assert(g.take(3) =~= g);
                }
                built = built + g.take(taken);
            }
            pos = pos + 4;
            in_off = in_off + 4;
            out_count = out_count + 3;
        }
        proof {
            assert(text0.skip(1) =~= data@.skip(data_start));
        }
        if pos >= data.len() {
            proof {
                assert(text0.len() <= 1 + in_off);
                assert(decoded_from(text0, cur_line as nat) == (DecodeOutcome::Decoded {
                    bytes: built,
                }));
                assert(out@ =~= out_line0 + built);
            }
            break;
        }
        pos = pos + 1;
        cur_line = cur_line + 1;
        proof {
            assert(text0.len() > 1 + in_off);
            assert(text0.skip(2 + in_off as int) =~= data@.skip(pos as int));
            let rest = decoded_from(data@.skip(pos as int), cur_line as nat);
            assert(decoded_from(text0, (cur_line - 1) as nat) == with_prefix(built, rest));
            lemma_with_prefix_assoc(out_line0, built, rest);
        }
    }
    Ok(out)
}

} // verus!
