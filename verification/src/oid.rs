//! Object identifiers: twenty bytes, written as forty hexadecimal digits.

use vstd::prelude::*;
use vstd::std_specs::cmp::PartialEqSpecImpl;
use vstd::utf8::encode_utf8;

verus! {

/// Identifies an object of the store by the hash of its content.
#[derive(Debug, Clone, Copy, Eq)]
pub struct ObjectId {
    pub bytes: [u8; 20],
}

impl PartialEqSpecImpl for ObjectId {
    open spec fn obeys_eq_spec() -> bool {
        true
    }

    open spec fn eq_spec(&self, other: &ObjectId) -> bool {
        self.bytes@ == other.bytes@
    }
}

impl PartialEq for ObjectId {
    fn eq(&self, other: &ObjectId) -> (same: bool) {
        let mut i: usize = 0;
        while i < 20
            invariant
                i <= 20,
                forall|j: int| 0 <= j < i ==> self.bytes@[j] == other.bytes@[j],
            decreases 20 - i,
        {
            if self.bytes[i] != other.bytes[i] {
                return false;
            }
            i = i + 1;
        }
        assert(self.bytes@ =~= other.bytes@);
        true
    }
}

/// Two identifiers with the same bytes are the same.
pub broadcast proof fn lemma_same_bytes(a: ObjectId, b: ObjectId)
    requires
        #[trigger] a.bytes@ == #[trigger] b.bytes@,
    ensures
        a == b,
{
    assert(a.bytes =~= b.bytes);
}

/// The identifier with these bytes.
pub open spec fn oid_of(bytes: Seq<u8>) -> ObjectId {
    choose|oid: ObjectId| oid.bytes@ == bytes
}

/// An identifier is the one with its bytes.
pub broadcast proof fn lemma_oid_of(oid: ObjectId)
    ensures
        oid_of(#[trigger] oid.bytes@) == oid,
{
    lemma_same_bytes(oid_of(oid.bytes@), oid);
}

/// Why a text is not an object identifier.
#[derive(Debug, Clone, Copy, PartialEq, Eq, Structural)]
pub enum HexError {
    /// The text has this many bytes instead of forty.
    Length(usize),
    /// One of the forty bytes is not a hexadecimal digit.
    Digit,
}

/// The value of a hexadecimal digit of either case.
pub open spec fn hex_value(digit: u8) -> Option<u8> {
    if 0x30 <= digit <= 0x39 {
        Some((digit - 0x30) as u8)
    } else if 0x61 <= digit <= 0x66 {
        Some((digit - 0x61 + 10) as u8)
    } else if 0x41 <= digit <= 0x46 {
        Some((digit - 0x41 + 10) as u8)
    } else {
        None
    }
}

/// The lower-case hexadecimal digit of a value below sixteen.
pub open spec fn hex_digit(value: int) -> char {
    if value < 10 {
        (0x30 + value) as u32 as char
    } else {
        (0x61 + value - 10) as u32 as char
    }
}

/// The bytes as hexadecimal digits, two for each.
pub open spec fn hex(bytes: Seq<u8>) -> Seq<char> {
    Seq::new(
        2 * bytes.len(),
        |i: int|
            hex_digit(
                if i % 2 == 0 {
                    bytes[i / 2] as int / 16
                } else {
                    bytes[i / 2] as int % 16
                },
            ),
    )
}

/// `text` is forty hexadecimal digits.
pub open spec fn is_full_hex(text: Seq<u8>) -> bool {
    &&& text.len() == 40
    &&& forall|i: int| 0 <= i < 40 ==> hex_value(#[trigger] text[i]) is Some
}

/// The bytes that forty hexadecimal digits write.
pub open spec fn unhex(text: Seq<u8>) -> Seq<u8> {
    Seq::new(
        20,
        |i: int| (16 * hex_value(text[2 * i])->0 + hex_value(text[2 * i + 1])->0) as u8,
    )
}

/// What a text says of an identifier.
pub open spec fn read_hex(text: Seq<u8>) -> Result<ObjectId, HexError> {
    if text.len() != 40 {
        Err(HexError::Length(text.len() as usize))
    } else if !is_full_hex(text) {
        Err(HexError::Digit)
    } else {
        Ok(oid_of(unhex(text)))
    }
}

/// `gix_hash::ObjectId::from_hex`: forty hexadecimal digits of either case give
/// their bytes, another length is reported as such, and any other byte among
/// forty as an invalid character.
#[verifier::external_body]
fn gix_from_hex(text: &[u8]) -> (result: Result<[u8; 20], HexError>)
    ensures
        match result {
            Ok(bytes) => is_full_hex(text@) && bytes@ == unhex(text@),
            Err(HexError::Length(n)) => text@.len() != 40 && n == text@.len(),
            Err(HexError::Digit) => text@.len() == 40 && !is_full_hex(text@),
        },
{
    match gix_hash::ObjectId::from_hex(text) {
        Ok(gix_hash::ObjectId::Sha1(bytes)) => Ok(bytes),
        Err(gix_hash::decode::Error::InvalidHexEncodingLength(n)) => Err(HexError::Length(n)),
        Err(gix_hash::decode::Error::Invalid) => Err(HexError::Digit),
    }
}

/// `gix_hash::ObjectId::to_hex`, displayed: the bytes as forty lower-case
/// hexadecimal digits.
#[verifier::external_body]
fn gix_to_hex(bytes: &[u8; 20]) -> (text: String)
    ensures
        text@ == hex(bytes@),
{
    gix_hash::ObjectId::Sha1(*bytes).to_hex().to_string()
}

impl ObjectId {
    /// The identifier whose bytes are all zero.
    pub open spec fn is_null(self) -> bool {
        forall|i: int| 0 <= i < 20 ==> #[trigger] self.bytes@[i] == 0
    }

    /// The identifier whose bytes are all zero.
    pub fn null() -> (oid: ObjectId)
        ensures
            oid.is_null(),
    {
        ObjectId { bytes: [0u8; 20] }
    }

    /// Reads an identifier from forty hexadecimal digits of either case.
    pub fn from_hex(text: &[u8]) -> (result: Result<ObjectId, HexError>)
        ensures
            match result {
                Ok(oid) => is_full_hex(text@) && oid.bytes@ == unhex(text@),
                Err(HexError::Length(n)) => text@.len() != 40 && n == text@.len(),
                Err(HexError::Digit) => text@.len() == 40 && !is_full_hex(text@),
            },
            result == read_hex(text@),
    {
        match gix_from_hex(text) {
            Ok(bytes) => {
                let oid = ObjectId { bytes };
                proof {
                    lemma_oid_of(oid);
                }
                Ok(oid)
            },
            Err(e) => Err(e),
        }
    }

    /// Writes the identifier as forty lower-case hexadecimal digits.
    pub fn to_hex(&self) -> (text: String)
        ensures
            text@ == hex(self.bytes@),
            text@.len() == 40,
    {
        gix_to_hex(&self.bytes)
    }
}

/// Every hexadecimal digit that is written is read back.
proof fn lemma_digit_value(value: int)
    requires
        0 <= value < 16,
    ensures
        (hex_digit(value) as u32) < 0x80,
        hex_value(hex_digit(value) as u8) == Some(value as u8),
{
}

/// What `to_hex` writes, `from_hex` reads back as the same identifier.
pub proof fn law_hex_round_trip(oid: ObjectId)
    ensures
        is_full_hex(encode_utf8(hex(oid.bytes@))),
        unhex(encode_utf8(hex(oid.bytes@))) == oid.bytes@,
        read_hex(encode_utf8(hex(oid.bytes@))) == Ok::<ObjectId, HexError>(oid),
{
    let b = oid.bytes@;
    let chars = hex(b);
    assert(b.len() == 20);
    assert forall|i: int| 0 <= i < 40 implies (#[trigger] chars[i]) as u32 <= 0x7f && hex_value(
        chars[i] as u8,
    ) == Some((if i % 2 == 0 {
        b[i / 2] as int / 16
    } else {
        b[i / 2] as int % 16
    }) as u8) by {
        lemma_digit_value(
            if i % 2 == 0 {
                b[i / 2] as int / 16
            } else {
                b[i / 2] as int % 16
            },
        );
    }
    assert(vstd::utf8::is_ascii_chars(chars));
    vstd::utf8::is_ascii_chars_encode_utf8(chars);
    let text = encode_utf8(chars);
    assert(text.len() == 40);
    assert forall|i: int| 0 <= i < 40 implies hex_value(#[trigger] text[i]) is Some by {
        assert(text[i] == chars[i] as u8);
    }
    assert forall|i: int| 0 <= i < 20 implies #[trigger] unhex(text)[i] == b[i] by {
        assert(text[2 * i] == chars[2 * i] as u8);
        assert(text[2 * i + 1] == chars[2 * i + 1] as u8);
        assert((2 * i) / 2 == i && (2 * i) % 2 == 0);
        assert((2 * i + 1) / 2 == i && (2 * i + 1) % 2 == 1);
    }
    assert(unhex(text) =~= b);
    lemma_oid_of(oid);
}

} // verus!
