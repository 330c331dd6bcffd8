//! The laws the codec obeys, proved over the model that the executable
//! functions are specified against.

use vstd::prelude::*;

use crate::model::{dec_char, decode_groups, decoded, decoded_from, enc_char, encode_group,
    encode_groups, encode_line, encoded, group_bytes, lemma_mask6, line_prepend, with_prefix,
    DecodeOutcome, LineOutcome, NEWLINE};

verus! {

/// The character maps invert each other: every 6-bit value decodes back to
/// itself after encoding.
pub proof fn lemma_char_round_trip(v: u8)
    requires
        v <= 63,
    ensures
        dec_char(enc_char(v)) == Some(v),
{
}

/// Both historical encodings of zero decode to zero: space and backtick.
pub proof fn lemma_dual_zero()
    ensures
        dec_char(32) == Some(0u8),
        dec_char(96) == Some(0u8),
{
}

/// Packing three bytes into four 6-bit units and unpacking them is the
/// identity, and every packed unit fits in six bits.
proof fn lemma_pack_unpack(b0: u8, b1: u8, b2: u8)
    by (bit_vector)
    ensures
        ((((b0 >> 2) & 0x3f) << 2) | ((((b0 << 4) | (b1 >> 4)) & 0x3f) >> 4)) == b0,
        (((((b0 << 4) | (b1 >> 4)) & 0x3f) << 4) | ((((b1 << 2) | (b2 >> 6)) & 0x3f) >> 2)) == b1,
        (((((b1 << 2) | (b2 >> 6)) & 0x3f) << 6) | (b2 & 0x3f)) == b2,
{
}

/// Decoding the data characters of one line, with anything at all after
/// them, reconstructs exactly the chunk they encode and consumes exactly
/// those characters.
proof fn lemma_groups_round_trip(chunk: Seq<u8>, extra: Seq<u8>, off: nat)
    ensures
        decode_groups(encode_groups(chunk) + extra, chunk.len() as nat, off)
            == (LineOutcome::Done { bytes: chunk, used: encode_groups(chunk).len() as nat }),
    decreases chunk.len(),
{
    let text = encode_groups(chunk) + extra;
    if chunk.len() == 0 {
        assert(decode_groups(text, 0, off) == (LineOutcome::Done {
            bytes: Seq::<u8>::empty(),
            used: 0nat,
        }));
        assert(chunk =~= Seq::<u8>::empty());
    } else {
        let b0 = chunk[0];
        let b1 = if chunk.len() >= 2 { chunk[1] } else { 0u8 };
        let b2 = if chunk.len() >= 3 { chunk[2] } else { 0u8 };
        let u0 = (b0 >> 2) & 0x3f;
        let u1 = ((b0 << 4) | (b1 >> 4)) & 0x3f;
        let u2 = ((b1 << 2) | (b2 >> 6)) & 0x3f;
        let u3 = b2 & 0x3f;
        lemma_mask6(b0 >> 2);
        lemma_mask6((b0 << 4) | (b1 >> 4));
        lemma_mask6((b1 << 2) | (b2 >> 6));
        lemma_mask6(b2);
        lemma_char_round_trip(u0);
        lemma_char_round_trip(u1);
        lemma_char_round_trip(u2);
        lemma_char_round_trip(u3);
        lemma_pack_unpack(b0, b1, b2);
        if chunk.len() <= 3 {
            assert(encode_groups(chunk) == encode_group(b0, b1, b2));
            assert(text.len() >= 4);
            assert(text[0] == enc_char(u0) && text[1] == enc_char(u1) && text[2] == enc_char(u2)
                && text[3] == enc_char(u3));
            assert(group_bytes(u0, u1, u2, u3) =~= seq![b0, b1, b2]);
            assert(group_bytes(u0, u1, u2, u3).take(chunk.len() as int) =~= chunk);
            assert(decode_groups(text, chunk.len() as nat, off) == (LineOutcome::Done {
                bytes: chunk,
                used: 4nat,
            }));
        } else {
            assert(encode_groups(chunk) == encode_group(b0, b1, b2) + encode_groups(
                chunk.skip(3),
            ));
            assert(text[0] == enc_char(u0) && text[1] == enc_char(u1) && text[2] == enc_char(u2)
                && text[3] == enc_char(u3));
            assert(group_bytes(u0, u1, u2, u3) =~= seq![b0, b1, b2]);
            assert(text.skip(4) =~= encode_groups(chunk.skip(3)) + extra);
            lemma_groups_round_trip(chunk.skip(3), extra, off + 4);
            assert(decode_groups(text, chunk.len() as nat, off) == line_prepend(
                group_bytes(u0, u1, u2, u3),
                4,
                LineOutcome::Done {
                    bytes: chunk.skip(3),
                    used: encode_groups(chunk.skip(3)).len() as nat,
                },
            ));
            assert(seq![b0, b1, b2] + chunk.skip(3) =~= chunk);
            assert(decode_groups(text, chunk.len() as nat, off) == (LineOutcome::Done {
                bytes: chunk,
                used: encode_groups(chunk).len() as nat,
            }));
        }
    }
}

/// Decoding an encoded buffer from any starting line index reconstructs the
/// buffer exactly.
proof fn lemma_round_trip_from(b: Seq<u8>, line: nat)
    ensures
        decoded_from(encoded(b), line) == (DecodeOutcome::Decoded { bytes: b }),
    decreases b.len(),
{
    if b.len() == 0 {
        assert(encoded(b) =~= Seq::<u8>::empty());
    } else if b.len() <= 45 {
        let text = encoded(b);
        assert(text == encode_line(b));
        assert(text[0] == enc_char(b.len() as u8));
        lemma_char_round_trip(b.len() as u8);
        assert(encode_groups(b) + Seq::<u8>::empty() =~= encode_groups(b));
        assert(text.skip(1) =~= encode_groups(b));
        lemma_groups_round_trip(b, Seq::empty(), 0);
        assert(decode_groups(text.skip(1), b.len() as nat, 0) == (LineOutcome::Done {
            bytes: b,
            used: encode_groups(b).len() as nat,
        }));
        assert(text.len() == 1 + encode_groups(b).len());
    } else {
        let text = encoded(b);
        let head = b.take(45);
        let tail = b.skip(45);
        assert(text == encode_line(head) + seq![NEWLINE] + encoded(tail));
        assert(head.len() == 45);
        assert(text[0] == enc_char(45u8));
        lemma_char_round_trip(45u8);
        let extra = seq![NEWLINE] + encoded(tail);
        assert(text.skip(1) =~= encode_groups(head) + extra);
        lemma_groups_round_trip(head, extra, 0);
        let used = encode_groups(head).len() as nat;
        assert(decode_groups(text.skip(1), 45nat, 0) == (LineOutcome::Done {
            bytes: head,
            used,
        }));
        assert(text.len() == 1 + used + 1 + encoded(tail).len());
        assert(text.len() > 1 + used);
        assert(text.skip(2 + used as int) =~= encoded(tail));
        lemma_round_trip_from(tail, (line + 1) as nat);
        assert(decoded_from(text, line) == with_prefix(
            head,
            DecodeOutcome::Decoded { bytes: tail },
        ));
        assert(head + tail =~= b);
    }
}

/// Round trip: decoding an encoded buffer reconstructs it exactly, for every
/// byte sequence.
pub proof fn lemma_round_trip(b: Seq<u8>)
    ensures
        decoded(encoded(b)) == (DecodeOutcome::Decoded { bytes: b }),
{
    lemma_round_trip_from(b, 0);
}

/// Decoding the data characters of one line in which the single character
/// at offset `p` has been replaced by a byte outside the alphabet reports
/// exactly that offset and byte.
proof fn lemma_groups_first_fault(chunk: Seq<u8>, extra: Seq<u8>, off: nat, p: int, bad: u8)
    requires
        dec_char(bad) is None,
        0 <= p < encode_groups(chunk).len(),
    ensures
        decode_groups(encode_groups(chunk).update(p, bad) + extra, chunk.len() as nat, off)
            == (LineOutcome::BadChar { character: (off + p) as nat, byte: bad }),
    decreases chunk.len(),
{
    let text = encode_groups(chunk).update(p, bad) + extra;
    assert(chunk.len() > 0);
    let b0 = chunk[0];
    let b1 = if chunk.len() >= 2 { chunk[1] } else { 0u8 };
    let b2 = if chunk.len() >= 3 { chunk[2] } else { 0u8 };
    let u0 = (b0 >> 2) & 0x3f;
    let u1 = ((b0 << 4) | (b1 >> 4)) & 0x3f;
    let u2 = ((b1 << 2) | (b2 >> 6)) & 0x3f;
    let u3 = b2 & 0x3f;
    lemma_mask6(b0 >> 2);
    lemma_mask6((b0 << 4) | (b1 >> 4));
    lemma_mask6((b1 << 2) | (b2 >> 6));
    lemma_mask6(b2);
    lemma_char_round_trip(u0);
    lemma_char_round_trip(u1);
    lemma_char_round_trip(u2);
    lemma_char_round_trip(u3);
    if chunk.len() <= 3 {
        assert(encode_groups(chunk) == encode_group(b0, b1, b2));
    } else {
        assert(encode_groups(chunk) == encode_group(b0, b1, b2) + encode_groups(chunk.skip(3)));
    }
    assert(text.len() >= 4);
    if p < 4 {
        assert(0 <= p < text.len());
        assert(text[p] == bad);
        assert(forall|k: int| 0 <= k < 4 && k != p ==> text[k] == encode_group(b0, b1, b2)[k]);
        assert(decode_groups(text, chunk.len() as nat, off) == (LineOutcome::BadChar {
            character: (off + p) as nat,
            byte: bad,
        }));
    } else {
        assert(chunk.len() > 3);
        assert(text[0] == enc_char(u0) && text[1] == enc_char(u1) && text[2] == enc_char(u2)
            && text[3] == enc_char(u3));
        assert(text.skip(4) =~= encode_groups(chunk.skip(3)).update(p - 4, bad) + extra);
        lemma_groups_first_fault(chunk.skip(3), extra, off + 4, p - 4, bad);
        assert(decode_groups(text, chunk.len() as nat, off) == line_prepend(
            group_bytes(u0, u1, u2, u3),
            4,
            LineOutcome::BadChar { character: (off + p) as nat, byte: bad },
        ));
    }
}

/// The bytes of the buffer that line `n` of its encoding carries: the
/// `n`th 45-byte chunk, shorter only where the buffer ends.
pub open spec fn chunk_at(data: Seq<u8>, n: nat) -> Seq<u8>
    recommends
        n * 45 <= data.len(),
{
    data.subrange(
        n * 45 as int,
        if data.len() <= n * 45 + 45 {
            data.len() as int
        } else {
            n * 45 + 45 as int
        },
    )
}

/// A data character's position lies inside the encoded text.
proof fn lemma_position_in_text(data: Seq<u8>, n: nat, p: nat)
    requires
        n * 45 < data.len(),
        p < encode_groups(chunk_at(data, n)).len(),
    ensures
        n * 62 + 1 + p < encoded(data).len(),
    decreases n,
{
    if data.len() <= 45 {
        assert(n == 0);
        assert(chunk_at(data, 0) =~= data);
        assert(encoded(data) == encode_line(data));
    } else {
        let head = data.take(45);
        let tail = data.skip(45);
        lemma_encode_groups_len(head);
        assert(encoded(data) == encode_line(head) + seq![NEWLINE] + encoded(tail));
        if n == 0 {
            assert(chunk_at(data, 0) =~= head);
        } else {
            assert((n - 1) * 45 < tail.len());
            assert(chunk_at(tail, (n - 1) as nat) =~= chunk_at(data, n));
            lemma_position_in_text(tail, (n - 1) as nat, p);
        }
    }
}

/// Error locality, from any starting line index.
proof fn lemma_error_locality_from(data: Seq<u8>, l: nat, n: nat, p: nat, bad: u8)
    requires
        dec_char(bad) is None,
        n * 45 < data.len(),
        p < encode_groups(chunk_at(data, n)).len(),
    ensures
        decoded_from(encoded(data).update(n * 62 + 1 + p as int, bad), l) == (DecodeOutcome::BadChar {
            line: (l + n) as nat,
            character: p,
            byte: bad,
        }),
    decreases n,
{
    let text = encoded(data);
    let idx: int = n * 62 + 1 + p as int;
    if data.len() <= 45 {
        assert(n == 0);
        assert(chunk_at(data, 0) =~= data);
        let up = text.update(idx, bad);
        assert(text == encode_line(data));
        assert(up[0] == enc_char(data.len() as u8));
        lemma_char_round_trip(data.len() as u8);
        assert(up.skip(1) =~= encode_groups(data).update(p as int, bad) + Seq::<u8>::empty());
        lemma_groups_first_fault(data, Seq::empty(), 0, p as int, bad);
        assert(decoded_from(up, l) == (DecodeOutcome::BadChar {
            line: l,
            character: p,
            byte: bad,
        }));
    } else {
        let head = data.take(45);
        let tail = data.skip(45);
        let line0 = encode_line(head);
        assert(text == line0 + seq![NEWLINE] + encoded(tail));
        lemma_encode_groups_len(head);
        assert(encode_groups(head).len() == 60);
        assert(line0.len() == 61);
        lemma_char_round_trip(45u8);
        if n == 0 {
            assert(chunk_at(data, 0) =~= head);
            let up = text.update(idx, bad);
            let extra = seq![NEWLINE] + encoded(tail);
            assert(up[0] == enc_char(45u8));
            assert(up.skip(1) =~= encode_groups(head).update(p as int, bad) + extra);
            lemma_groups_first_fault(head, extra, 0, p as int, bad);
            assert(decoded_from(up, l) == (DecodeOutcome::BadChar {
                line: l,
                character: p,
                byte: bad,
            }));
        } else {
            let up = text.update(idx, bad);
            let rest_up = encoded(tail).update(idx - 62, bad);
            assert((n - 1) * 45 < tail.len());
            assert(chunk_at(tail, (n - 1) as nat) =~= chunk_at(data, n));
            assert(idx - 62 == (n - 1) * 62 + 1 + p);
            lemma_error_locality_from(tail, (l + 1) as nat, (n - 1) as nat, p, bad);
            lemma_position_in_text(tail, (n - 1) as nat, p);
            assert(idx - 62 < encoded(tail).len());
            assert(up =~= line0 + seq![NEWLINE] + rest_up);
            assert(up[0] == enc_char(45u8));
            let extra = seq![NEWLINE] + rest_up;
            assert(up.skip(1) =~= encode_groups(head) + extra);
            lemma_groups_round_trip(head, extra, 0);
            let used = encode_groups(head).len() as nat;
            assert(up.len() == 61 + 1 + rest_up.len());
            assert(up.len() > 1 + used);
            assert(up.skip(2 + used as int) =~= rest_up);
            assert(decoded_from(up, l) == with_prefix(
                head,
                decoded_from(rest_up, (l + 1) as nat),
            ));
        }
    }
}

/// Error locality: replacing the single data character at offset `p` of
/// line `n` of an encoded buffer with a byte outside the alphabet makes
/// decoding fail with exactly that line index, that offset within the
/// line's data portion, and that byte.
pub proof fn lemma_error_locality(data: Seq<u8>, n: nat, p: nat, bad: u8)
    requires
        dec_char(bad) is None,
        n * 45 < data.len(),
        p < encode_groups(chunk_at(data, n)).len(),
    ensures
        decoded(encoded(data).update(n * 62 + 1 + p as int, bad)) == (DecodeOutcome::BadChar {
            line: n,
            character: p,
            byte: bad,
        }),
{
    lemma_error_locality_from(data, 0, n, p, bad);
}

/// The data characters of a chunk number four per group of three bytes,
/// rounded up.
proof fn lemma_encode_groups_len(chunk: Seq<u8>)
    ensures
        encode_groups(chunk).len() == 4 * ((chunk.len() + 2) / 3),
    decreases chunk.len(),
{
    if chunk.len() == 0 {
    } else if chunk.len() <= 3 {
    } else {
        lemma_encode_groups_len(chunk.skip(3));
    }
}

/// Every character of an encoded line lies in the printable alphabet
/// 0x21..=0x60; in particular none is a newline.
proof fn lemma_encode_groups_alphabet(chunk: Seq<u8>)
    ensures
        forall|i: int|
            0 <= i < encode_groups(chunk).len() ==> 33 <= #[trigger] encode_groups(chunk)[i]
                <= 96,
    decreases chunk.len(),
{
    if chunk.len() == 0 {
    } else {
        let b0 = chunk[0];
        let b1 = if chunk.len() >= 2 { chunk[1] } else { 0u8 };
        let b2 = if chunk.len() >= 3 { chunk[2] } else { 0u8 };
        lemma_mask6(b0 >> 2);
        lemma_mask6((b0 << 4) | (b1 >> 4));
        lemma_mask6((b1 << 2) | (b2 >> 6));
        lemma_mask6(b2);
        if chunk.len() <= 3 {
        } else {
            lemma_encode_groups_alphabet(chunk.skip(3));
            assert(forall|i: int|
                4 <= i < encode_groups(chunk).len() ==> encode_groups(chunk)[i]
                    == encode_groups(chunk.skip(3))[i - 4]);
        }
    }
}

/// Line chunking: a 45-byte buffer encodes to exactly one line of 61
/// characters whose prefix decodes to 45, and a 46-byte buffer encodes to
/// exactly two lines, the second with a prefix decoding to 1.
pub proof fn lemma_line_chunking(data: Seq<u8>)
    ensures
        data.len() == 45 ==> encoded(data).len() == 61 && dec_char(encoded(data)[0])
            == Some(45u8) && (forall|i: int|
            0 <= i < encoded(data).len() ==> #[trigger] encoded(data)[i] != NEWLINE),
        data.len() == 46 ==> encoded(data).len() == 67 && encoded(data)[61] == NEWLINE
            && dec_char(encoded(data)[62]) == Some(1u8) && (forall|i: int|
            0 <= i < encoded(data).len() && i != 61 ==> #[trigger] encoded(data)[i] != NEWLINE),
{
    if data.len() == 45 {
        lemma_encode_groups_len(data);
        lemma_encode_groups_alphabet(data);
        lemma_char_round_trip(45u8);
        assert(encoded(data) == encode_line(data));
        assert(encoded(data)[0] == enc_char(45u8));
    }
    if data.len() == 46 {
        let head = data.take(45);
        let tail = data.skip(45);
        assert(head.len() == 45 && tail.len() == 1);
        lemma_encode_groups_len(head);
        lemma_encode_groups_len(tail);
        lemma_encode_groups_alphabet(head);
        lemma_encode_groups_alphabet(tail);
        lemma_char_round_trip(45u8);
        lemma_char_round_trip(1u8);
        let first = encode_line(head);
        let second = encode_line(tail);
        assert(encoded(data) == first + seq![NEWLINE] + encoded(tail));
        assert(encoded(tail) == second);
        assert(first.len() == 61 && second.len() == 5);
        assert(encoded(data)[61] == NEWLINE);
        assert(encoded(data)[62] == second[0]);
        assert(second[0] == enc_char(1u8));
        assert forall|i: int| 0 <= i < encoded(data).len() && i != 61 implies #[trigger] encoded(
            data,
        )[i] != NEWLINE by {
            if i < 61 {
                assert(encoded(data)[i] == first[i]);
                if i > 0 {
                    assert(first[i] == encode_groups(head)[i - 1]);
                }
            } else {
                assert(encoded(data)[i] == second[i - 62]);
                if i > 62 {
                    assert(second[i - 62] == encode_groups(tail)[i - 63]);
                }
            }
        }
    }
}

} // verus!
