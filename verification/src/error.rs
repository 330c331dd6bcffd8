//! The error reported for malformed input: which line, which character
//! within that line, and a descriptive message.

use vstd::prelude::*;
use vstd::utf8::is_ascii_chars;

use crate::ascii::{ascii_to_string, lemma_ascii_chars_bytes, push_ascii};
use crate::model::{all_ascii, chars_of};

verus! {

/// The character for one hexadecimal digit, lower case.
pub open spec fn hex_digit(d: u8) -> u8
    recommends
        d <= 15,
{
    if d < 10 {
        (48 + d) as u8
    } else {
        (87 + d) as u8
    }
}

/// The message reported when a character outside the encoding alphabet is
/// met: it names the offending byte in hexadecimal.
pub open spec fn invalid_char_msg(b: u8) -> Seq<char> {
    "Invalid character in input: 0x"@ + seq![
        hex_digit(b >> 4) as char,
        hex_digit(b & 0xf) as char,
    ]
}

/// The message reported when a line's declared length requires more data
/// characters than the input still holds.
pub open spec fn truncated_msg() -> Seq<char> {
    "Truncated input: the line needs more data characters"@
}

/// The decimal digits of a number, most significant first.
pub open spec fn dec_digits(n: nat) -> Seq<u8>
    decreases n,
{
    if n < 10 {
        seq![(48 + n) as u8]
    } else {
        dec_digits(n / 10).push((48 + (n % 10)) as u8)
    }
}

/// The full text of an error: its message followed by the fault's line and
/// character location.
pub open spec fn located_msg(msg: Seq<char>, line: nat, character: nat) -> Seq<char> {
    msg + " at line "@ + chars_of(dec_digits(line)) + " character "@ + chars_of(
        dec_digits(character),
    )
}

/// Decimal digits are the characters '0' through '9'.
proof fn lemma_dec_digits_range(n: nat)
    ensures
        forall|i: int| 0 <= i < dec_digits(n).len() ==> 48 <= #[trigger] dec_digits(n)[i] <= 57,
    decreases n,
{
    if n >= 10 {
        lemma_dec_digits_range(n / 10);
        assert forall|i: int| 0 <= i < dec_digits(n).len() implies 48 <= #[trigger] dec_digits(
            n,
        )[i] <= 57 by {
            if i < dec_digits(n / 10).len() {
                assert(dec_digits(n)[i] == dec_digits(n / 10)[i]);
            } else {
                assert(dec_digits(n)[i] == (48 + (n % 10)) as u8);
            }
        }
    }
}

/// Appends the decimal digits of `n` to a byte buffer.
fn push_decimal(v: &mut Vec<u8>, n: u64)
    ensures
        final(v)@ == old(v)@ + dec_digits(n as nat),
    decreases n,
{
    if n < 10 {
        v.push(48 + (n as u8));
    } else {
        push_decimal(v, n / 10);
        v.push(48 + ((n % 10) as u8));
        proof {
            assert(old(v)@ + dec_digits((n / 10) as nat) + seq![(48 + ((n as int) % 10)) as u8]
                =~= old(v)@ + dec_digits(n as nat));
        }
    }
}

/// An error representing malformed input data: an invalid character, or a
/// line whose declared length requires more data characters than remain.
#[derive(Debug)]
pub struct UUEncodeError {
    /// The input line that the fault is on.
    line: usize,
    /// The input character that the fault is on.
    character: usize,
    /// A descriptive message about the fault.
    msg: String,
}

impl UUEncodeError {
    /// Every message this library produces is plain ASCII text.
    #[verifier::type_invariant]
    spec fn wf(&self) -> bool {
        is_ascii_chars(self.msg@)
    }

    /// The 0-based line index the fault is on.
    pub closed spec fn line_spec(&self) -> nat {
        self.line as nat
    }

    /// The 0-based character offset of the fault within its line: 0 for a
    /// bad length prefix, the offset within the data portion otherwise.
    pub closed spec fn character_spec(&self) -> nat {
        self.character as nat
    }

    /// The descriptive message.
    pub closed spec fn msg_spec(&self) -> Seq<char> {
        self.msg@
    }

    pub(crate) fn new(line: usize, character: usize, msg: String) -> (e: Self)
        requires
            is_ascii_chars(msg@),
        ensures
            e.line_spec() == line as nat,
            e.character_spec() == character as nat,
            e.msg_spec() == msg@,
    {
        UUEncodeError { line, character, msg }
    }

    /// The 0-based line index the fault is on.
    pub fn line(&self) -> (r: usize)
        ensures
            r as nat == self.line_spec(),
    {
        self.line
    }

    /// The 0-based character offset of the fault within its line.
    pub fn character(&self) -> (r: usize)
        ensures
            r as nat == self.character_spec(),
    {
        self.character
    }

    /// The full text of the error: its message followed by the fault's line
    /// and character location.
    pub fn message(&self) -> (s: String)
        ensures
            s@ == located_msg(self.msg_spec(), self.line_spec(), self.character_spec()),
    {
        proof {
            use_type_invariant(self);
        }
        let mut bytes: Vec<u8> = Vec::new();
        push_ascii(&mut bytes, self.msg.as_str());
        let at_line = " at line ";
        proof {
            reveal_strlit(" at line ");
            assert(is_ascii_chars(at_line@));
        }
        push_ascii(&mut bytes, at_line);
        push_decimal(&mut bytes, self.line as u64);
        let character_word = " character ";
        proof {
            reveal_strlit(" character ");
            assert(is_ascii_chars(character_word@));
        }
        push_ascii(&mut bytes, character_word);
        push_decimal(&mut bytes, self.character as u64);
        proof {
            lemma_ascii_chars_bytes(self.msg@);
            lemma_ascii_chars_bytes(at_line@);
            lemma_ascii_chars_bytes(character_word@);
            lemma_dec_digits_range(self.line as nat);
            lemma_dec_digits_range(self.character as nat);
            assert(all_ascii(bytes@));
            assert(chars_of(bytes@) =~= located_msg(
                self.msg@,
                self.line as nat,
                self.character as nat,
            ));
        }
        ascii_to_string(bytes)
    }
}

/// Builds the invalid-character message for an offending byte.
pub(crate) fn invalid_char_message(b: u8) -> (s: String)
    ensures
        s@ == invalid_char_msg(b),
        is_ascii_chars(s@),
{
    let prefix = "Invalid character in input: 0x";
    proof {
        reveal_strlit("Invalid character in input: 0x");
        assert(is_ascii_chars(prefix@));
    }
    let mut bytes: Vec<u8> = Vec::new();
    push_ascii(&mut bytes, prefix);
    let hi = b >> 4;
    let lo = b & 0xf;
    proof {
        assert(b >> 4 <= 15 && b & 0xf <= 15) by (bit_vector);
    }
    bytes.push(if hi < 10 { 48 + hi } else { 87 + hi });
    bytes.push(if lo < 10 { 48 + lo } else { 87 + lo });
    proof {
        lemma_ascii_chars_bytes(prefix@);
        assert(all_ascii(bytes@));
        assert(chars_of(bytes@) =~= invalid_char_msg(b));
    }
    ascii_to_string(bytes)
}

/// Builds the truncated-input message.
pub(crate) fn truncated_message() -> (s: String)
    ensures
        s@ == truncated_msg(),
        is_ascii_chars(s@),
{
    let text = "Truncated input: the line needs more data characters";
    proof {
        reveal_strlit("Truncated input: the line needs more data characters");
        assert(is_ascii_chars(text@));
    }
    let mut bytes: Vec<u8> = Vec::new();
    push_ascii(&mut bytes, text);
    proof {
        lemma_ascii_chars_bytes(text@);
        assert(all_ascii(bytes@));
        assert(chars_of(bytes@) =~= truncated_msg());
    }
    ascii_to_string(bytes)
}

} // verus!
