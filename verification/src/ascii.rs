//! Conversion of verified byte buffers into `String` values.

use vstd::prelude::*;

use vstd::string::StringSliceAdditionalSpecFns;

use crate::model::{all_ascii, chars_of};

verus! {

/// Relies on `String::from_utf8`: a byte sequence in which every byte is
/// below 0x80 is valid UTF-8, and the resulting string reads it one
/// character per byte, each character the byte's own code point.
#[verifier::external_body]
pub(crate) fn ascii_to_string(bytes: Vec<u8>) -> (s: String)
    requires
        all_ascii(bytes@),
    ensures
        s@ == chars_of(bytes@),
{
    match String::from_utf8(bytes) {
        Ok(s) => s,
        Err(_) => String::new(),
    }
}

/// Appends the bytes of an ASCII string slice to a byte buffer, one byte per
/// character.
pub(crate) fn push_ascii(v: &mut Vec<u8>, s: &str)
    requires
        vstd::utf8::is_ascii_chars(s@),
    ensures
        final(v)@ == old(v)@ + s@.map_values(|c: char| c as u8),
{
    let ghost before = v@;
    v.extend_from_slice(s.as_bytes());
    proof {
        vstd::string::is_ascii_spec_bytes(s);
        assert(s.spec_bytes() =~= s@.map_values(|c: char| c as u8));
        assert(v@ =~= before + s@.map_values(|c: char| c as u8));
    }
}

/// Mapping an ASCII character sequence to bytes and reading the bytes back
/// as characters is the identity, and the bytes are all below 0x80.
pub(crate) proof fn lemma_ascii_chars_bytes(cs: Seq<char>)
    requires
        vstd::utf8::is_ascii_chars(cs),
    ensures
        all_ascii(cs.map_values(|c: char| c as u8)),
        chars_of(cs.map_values(|c: char| c as u8)) == cs,
{
    let bs = cs.map_values(|c: char| c as u8);
    assert forall|i: int| 0 <= i < bs.len() implies bs[i] < 128 by {
        assert('\0' <= cs[i] <= '\u{7f}');
        vstd::utf8::char_is_scalar(cs[i]);
    }
    assert forall|i: int| 0 <= i < cs.len() implies chars_of(bs)[i] == cs[i] by {
        let c = cs[i];
        let u: u32 = c as u32;
        assert(u < 128);
        assert(c as u8 == u as u8);
        assert((c as u8) as u32 == u);
        vstd::utf8::char_u32_cast(c, u);
        assert(((c as u8) as char) as u32 == u);
        vstd::utf8::char_u32_cast((c as u8) as char, u);
    }
    assert(chars_of(bs) =~= cs);
}

} // verus!
