//! Hexadecimal text, as the `hex` crate writes and reads it.

use vstd::prelude::*;
use crate::text;

verus! {

/// Why a text is not hexadecimal.
#[derive(Debug, Clone, Copy)]
pub enum HexError {
    /// The byte at `index` is not a hexadecimal digit.
    InvalidHexCharacter { c: char, index: usize },
    /// The text has an odd number of digits.
    OddLength,
    /// The text does not fill a container of fixed size.
    InvalidStringLength,
}

/// The lower-case digit of value `n`.
pub open spec fn hex_digit(n: int) -> char {
    if n < 10 {
        ('0' as int + n) as char
    } else {
        ('a' as int + n - 10) as char
    }
}

/// The value of a digit of either case.
pub open spec fn digit_value(b: u8) -> Option<int> {
    if 0x30 <= b <= 0x39 {
        Some(b - 0x30)
    } else if 0x41 <= b <= 0x46 {
        Some(b - 0x41 + 10)
    } else if 0x61 <= b <= 0x66 {
        Some(b - 0x61 + 10)
    } else {
        None
    }
}

/// Two lower-case digits for each byte, the high one first.
pub open spec fn hex_encoded(b: Seq<u8>) -> Seq<char> {
    Seq::new(
        2 * b.len(),
        |i: int| hex_digit(if i % 2 == 0 { b[i / 2] as int / 16 } else { b[i / 2] as int % 16 }),
    )
}

/// The index of the first byte that is no digit, or the length where all are.
pub open spec fn first_non_digit(b: Seq<u8>) -> int
    decreases b.len(),
{
    if b.len() == 0 || digit_value(b[0]) is None {
        0
    } else {
        1 + first_non_digit(b.skip(1))
    }
}

/// The bytes that a hexadecimal text stands for.
pub open spec fn hex_decoded(b: Seq<u8>) -> Result<Seq<u8>, HexError> {
    let i = first_non_digit(b);
    if b.len() % 2 != 0 {
        Err(HexError::OddLength)
    } else if i < b.len() {
        Err(HexError::InvalidHexCharacter { c: b[i] as char, index: i as usize })
    } else {
        Ok(
            Seq::new(
                b.len() / 2,
                |k: int| (16 * digit_value(b[2 * k])->0 + digit_value(b[2 * k + 1])->0) as u8,
            ),
        )
    }
}

/// How `std` writes a character for debugging, between single quotes.
pub uninterp spec fn char_debug(c: char) -> Seq<char>;

/// The message of a decoding error.
pub open spec fn hex_error_message(e: HexError) -> Seq<char> {
    match e {
        HexError::InvalidHexCharacter { c, index } => "Invalid character "@ + char_debug(c)
            + " at position "@ + text::decimal(index as nat),
        HexError::OddLength => "Odd number of digits"@,
        HexError::InvalidStringLength => "Invalid string length"@,
    }
}

/// `hex::encode`: two lower-case digits for each byte. The result must fit in
/// one allocation, of at most `isize::MAX` bytes.
#[verifier::external_body]
pub(crate) fn hex_encode(data: &[u8]) -> (r: String)
    requires
        2 * data@.len() <= isize::MAX,
    ensures
        r@ == hex_encoded(data@),
{
    hex::encode(data)
}

/// `hex::decode`: fails on an odd number of bytes before it looks at any of
/// them, and otherwise at the first byte that is not a digit; each pair of
/// digits gives one byte, the high digit first.
#[verifier::external_body]
pub(crate) fn hex_decode(data: &[u8]) -> (r: Result<Vec<u8>, HexError>)
    ensures
        match r {
            Ok(v) => hex_decoded(data@) == Ok::<Seq<u8>, HexError>(v@),
            Err(e) => hex_decoded(data@) == Err::<Seq<u8>, HexError>(e),
        },
{
    hex::decode(data).map_err(|e| match e {
        hex::FromHexError::InvalidHexCharacter { c, index } => HexError::InvalidHexCharacter { c, index },
        hex::FromHexError::OddLength => HexError::OddLength,
        hex::FromHexError::InvalidStringLength => HexError::InvalidStringLength,
    })
}

/// The `Display` text of `hex::FromHexError`. What stands between the two
/// fixed phrases for an invalid character is its `Debug` form, which has a
/// name here and no further statement.
#[verifier::external_body]
pub(crate) fn hex_error_text(e: HexError) -> (r: String)
    ensures
        match e {
            HexError::InvalidHexCharacter { c, index } => r@ == "Invalid character "@ + char_debug(c)
                + " at position "@ + text::decimal(index as nat),
            HexError::OddLength => r@ == "Odd number of digits"@,
            HexError::InvalidStringLength => r@ == "Invalid string length"@,
        },
{
    match e {
        HexError::InvalidHexCharacter { c, index } => hex::FromHexError::InvalidHexCharacter { c, index },
        HexError::OddLength => hex::FromHexError::OddLength,
        HexError::InvalidStringLength => hex::FromHexError::InvalidStringLength,
    }.to_string()
}

/// What `first_non_digit` finds.
pub proof fn lemma_first_non_digit(b: Seq<u8>)
    ensures
        0 <= first_non_digit(b) <= b.len(),
        forall|i: int| 0 <= i < first_non_digit(b) ==> digit_value(#[trigger] b[i]) is Some,
        first_non_digit(b) < b.len() ==> digit_value(b[first_non_digit(b)]) is None,
    decreases b.len(),
{
    if b.len() == 0 || digit_value(b[0]) is None {
    } else {
        lemma_first_non_digit(b.skip(1));
        let n = first_non_digit(b);
        assert forall|i: int| 0 <= i < n implies digit_value(#[trigger] b[i]) is Some by {
            if i > 0 {
                assert(b.skip(1)[i - 1] == b[i]);
            }
        }
    }
}

/// Every digit that encoding writes is a lower-case ASCII digit.
pub proof fn lemma_hex_encoded_digit(b: Seq<u8>, i: int)
    requires
        0 <= i < 2 * b.len(),
    ensures
        ({
            let c = hex_encoded(b)[i] as u32;
            0x30 <= c <= 0x39 || 0x61 <= c <= 0x66
        }),
        digit_value(hex_encoded(b)[i] as u8) == Some(
            if i % 2 == 0 { b[i / 2] as int / 16 } else { b[i / 2] as int % 16 },
        ),
{
}

/// Decoding gives back what was encoded: for all bytes `b`, the ASCII bytes of
/// the hexadecimal text of `b` decode to `b`.
pub proof fn law_hex_round_trip(b: Seq<u8>)
    ensures
        hex_decoded(Seq::new(2 * b.len(), |i: int| hex_encoded(b)[i] as u8)) == Ok::<Seq<u8>, HexError>(b),
{
    let t = Seq::new(2 * b.len(), |i: int| hex_encoded(b)[i] as u8);
    assert forall|i: int| 0 <= i < t.len() implies digit_value(#[trigger] t[i]) == Some(
        if i % 2 == 0 { b[i / 2] as int / 16 } else { b[i / 2] as int % 16 },
    ) by {
        lemma_hex_encoded_digit(b, i);
    }
    lemma_first_non_digit(t);
    assert forall|k: int| 0 <= k < b.len() implies (16 * digit_value(t[2 * k])->0 + digit_value(
        t[2 * k + 1],
    )->0) as u8 == #[trigger] b[k] by {
        assert((2 * k) / 2 == k && (2 * k + 1) / 2 == k);
    }
    assert(hex_decoded(t)->Ok_0 =~= b);
}

} // verus!
