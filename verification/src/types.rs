//! Shared wire-level value types: the length-prefixed `<character-string>` of
//! RFC 1035 section 3.3, and the 14-bit compression pointer of section 4.1.4.

use vstd::prelude::*;

use crate::label::spec_parse_label;
use crate::wire::{ascii_bytes, label_wire};
use crate::ParseDataError;

verus! {

broadcast use vstd::string::is_ascii_spec_bytes;

/// The largest total wire size of a character string, its length octet
/// included.
pub const MAX_CHARACTER_STRING_LEN: usize = 256;

/// Why a piece of text was rejected as a character string.
#[derive(Debug, Clone, Copy, PartialEq, Eq, Structural)]
pub enum CharacterStringError {
    /// The text is longer than 255 octets.
    TooLong,
    /// The text is not pure ASCII.
    InvalidAscii,
    /// A buffer being parsed did not hold a whole character string.
    InvalidByteStructure,
}

/// Every byte of the text is ASCII.
pub open spec fn all_ascii(t: Seq<u8>) -> bool {
    forall|i: int| 0 <= i < t.len() ==> t[i] < 128
}

/// The wire form of a character string: a length octet, then the text octets.
pub open spec fn char_string_wire(t: Seq<u8>) -> Seq<u8>
    recommends
        t.len() <= 255,
{
    label_wire(t)
}

/// Parse one character string at `pos`: a length octet, that many following
/// octets, all of them ASCII.
pub open spec fn spec_parse_char_string(b: Seq<u8>, pos: int) -> Option<(Seq<u8>, int)> {
    match spec_parse_label(b, pos) {
        None => None,
        Some((t, end)) => if all_ascii(t) {
            Some((t, end))
        } else {
            None
        },
    }
}

/// A `<character-string>`: a length octet followed by up to 255 octets of
/// ASCII text, so its total wire size is at most 256 octets. The view is the
/// text alone.
#[derive(Debug, PartialEq, Eq)]
pub struct CharacterString {
    data: Vec<u8>,
}

impl View for CharacterString {
    type V = Seq<u8>;

    closed spec fn view(&self) -> Seq<u8> {
        self.data@
    }
}

impl Clone for CharacterString {
    fn clone(&self) -> (r: Self)
        ensures
            r@ == self@,
    {
        proof {
            use_type_invariant(self);
        }
        CharacterString { data: crate::wire::clone_bytes(&self.data) }
    }
}

impl CharacterString {
    /// The stored text always fits its one-octet length prefix and is ASCII.
    #[verifier::type_invariant]
    spec fn inv(self) -> bool {
        &&& self.data@.len() <= 255
        &&& all_ascii(self.data@)
    }

    /// Validate a piece of text as a character string: it must be ASCII and
    /// at most 255 octets.
    pub fn try_from(value: &str) -> (r: Result<Self, CharacterStringError>)
        ensures
            match r {
                Ok(cs) => {
                    &&& value.is_ascii()
                    &&& value@.len() <= 255
                    &&& cs@ == ascii_bytes(value@)
                },
                Err(CharacterStringError::InvalidAscii) => !value.is_ascii(),
                Err(CharacterStringError::TooLong) => value.is_ascii() && value@.len() > 255,
                Err(CharacterStringError::InvalidByteStructure) => false,
            },
    {
        if !value.is_ascii() {
            return Err(CharacterStringError::InvalidAscii);
        }
        let b: &[u8] = value.as_bytes();
        proof {
            assert(b@ =~= ascii_bytes(value@));
        }
        if b.len() >= MAX_CHARACTER_STRING_LEN {
            return Err(CharacterStringError::TooLong);
        }
        let data = vstd::slice::slice_to_vec(b);
        proof {
            assert forall|i: int| 0 <= i < b@.len() implies b@[i] < 128 by {
                assert(b@[i] == value@[i] as u8);
                assert(value@[i] as u8 <= 127) by {
                    assert(vstd::utf8::is_ascii_chars(value@));
                    assert('\0' <= value@[i] <= '\u{7f}');
                }
            }
        }
        Ok(CharacterString { data })
    }

    /// The length of the text, not counting the length octet.
    pub fn len(&self) -> (r: u8)
        ensures
            r == self@.len(),
    {
        proof {
            use_type_invariant(self);
        }
        self.data.len() as u8
    }

    /// The text octets.
    pub fn char_str(&self) -> (r: &Vec<u8>)
        ensures
            r@ == self@,
    {
        &self.data
    }

    pub fn is_empty(&self) -> (r: bool)
        ensures
            r == (self@.len() == 0),
    {
        self.data.len() == 0
    }

    /// The text octets as a slice.
    pub fn as_bytes(&self) -> (r: &[u8])
        ensures
            r@ == self@,
    {
        self.data.as_slice()
    }

    /// The wire form: the length octet, then the text octets.
    pub fn to_bytes(&self) -> (r: Vec<u8>)
        ensures
            r@ == char_string_wire(self@),
    {
        proof {
            use_type_invariant(self);
        }
        let mut out: Vec<u8> = Vec::new();
        out.push(self.data.len() as u8);
        out.extend_from_slice(self.data.as_slice());
        proof {
            assert(out@ =~= char_string_wire(self@));
        }
        out
    }

    /// Read one character string from the front of `bytes`: a length octet,
    /// then that many ASCII octets. Returns the string and the count of bytes
    /// consumed.
    pub fn parse(bytes: &[u8]) -> (r: Result<(Self, usize), ParseDataError>)
        ensures
            match r {
                Ok(p) => spec_parse_char_string(bytes@, 0) == Some((p.0@, p.1 as int)),
                Err(e) => {
                    &&& spec_parse_char_string(bytes@, 0) is None
                    &&& e == ParseDataError::InvalidByteStructure
                },
            },
    {
        Self::parse_at(bytes, 0)
    }

    /// Read one character string at position `pos` of `bytes`.
    pub fn parse_at(bytes: &[u8], pos: usize) -> (r: Result<(Self, usize), ParseDataError>)
        ensures
            match r {
                Ok(p) => spec_parse_char_string(bytes@, pos as int) == Some((p.0@, p.1 as int)),
                Err(e) => {
                    &&& spec_parse_char_string(bytes@, pos as int) is None
                    &&& e == ParseDataError::InvalidByteStructure
                },
            },
    {
        if pos >= bytes.len() {
            return Err(ParseDataError::InvalidByteStructure);
        }
        let n = bytes[pos] as usize;
        let rem = bytes.len() - pos;
        if n >= rem {
            return Err(ParseDataError::InvalidByteStructure);
        }
        let ghost text = bytes@.subrange(pos as int + 1, pos as int + 1 + bytes@[pos as int]);
        let total = bytes.len();
        let mut data: Vec<u8> = Vec::new();
        let mut i: usize = 0;
        while i < n
            invariant
                0 <= i <= n,
                total == bytes@.len(),
                pos + 1 + n <= total,
                n == bytes@[pos as int],
                text == bytes@.subrange(pos as int + 1, pos as int + 1 + bytes@[pos as int]),
                data@ == text.take(i as int),
                all_ascii(data@),
            decreases n - i,
        {
            let byte = bytes[pos + 1 + i];
            if byte >= 128 {
                proof {
                    assert(text[i as int] == byte);
                    assert(!all_ascii(text));
                }
                return Err(ParseDataError::InvalidByteStructure);
            }
            data.push(byte);
            proof {
                assert(data@ =~= text.take(i as int + 1));
            }
            i += 1;
        }
        proof {
            assert(data@ =~= text);
        }
        Ok((CharacterString { data }, pos + 1 + n))
    }
}

/// The wire form of a compression pointer: the marker bits `11`, then the low
/// 14 bits of the offset, big-endian.
pub open spec fn ptr_wire(off: u16) -> Seq<u8> {
    seq![(192 + (off % 0x4000) / 256) as u8, (off % 256) as u8]
}

/// Parse a compression pointer at `pos`: two octets whose first two bits are
/// `11`. Returns the 14-bit offset and the position after the pointer.
pub open spec fn spec_parse_ptr(b: Seq<u8>, pos: int) -> Option<(u16, int)> {
    if 0 <= pos && pos + 2 <= b.len() && b[pos] >= 192 {
        Some((((b[pos] - 192) * 256 + b[pos + 1]) as u16, pos + 2))
    } else {
        None
    }
}

pub proof fn lemma_ptr_wire_roundtrip(off: u16, b: Seq<u8>, pos: int)
    requires
        off < 0x4000,
        0 <= pos,
        pos + 2 <= b.len(),
        b[pos] == ptr_wire(off)[0],
        b[pos + 1] == ptr_wire(off)[1],
    ensures
        spec_parse_ptr(b, pos) == Some((off, pos + 2)),
{
    assert(b[pos] == 192 + off / 256);
    assert((off / 256) * 256 + off % 256 == off) by {
        vstd::arithmetic::div_mod::lemma_fundamental_div_mod(off as int, 256);
    }
}

/// A pointer to one or more labels at an earlier offset of the same message,
/// supporting the compression scheme of RFC 1035 section 4.1.4. The view is
/// the offset.
#[derive(Debug, Clone, Copy, PartialEq, Eq, Structural)]
pub struct DomainPointer {
    offset: u16,
}

impl View for DomainPointer {
    type V = u16;

    closed spec fn view(&self) -> u16 {
        self.offset
    }
}

impl DomainPointer {
    /// The wire size of a pointer, in octets.
    pub const SIZE: u16 = 2;

    pub fn new(offset: u16) -> (r: Self)
        ensures
            r@ == offset,
    {
        DomainPointer { offset }
    }

    /// The offset carried by the pointer.
    pub fn offset(&self) -> (r: u16)
        ensures
            r == self@,
    {
        self.offset
    }

    /// The two wire octets: `11` marker bits, then the low 14 bits of the
    /// offset. Offset bits beyond the low 14 are discarded.
    pub fn to_bytes(&self) -> (r: Vec<u8>)
        ensures
            r@ == ptr_wire(self@),
    {
        let mut out: Vec<u8> = Vec::new();
        out.push(192 + ((self.offset % 0x4000) / 256) as u8);
        out.push((self.offset % 256) as u8);
        proof {
            assert(out@ =~= ptr_wire(self@));
        }
        out
    }

    /// Read a pointer from the front of `bytes`: two octets whose first two
    /// bits must be `11`. Returns the pointer and the count of bytes consumed.
    pub fn parse(bytes: &[u8]) -> (r: Result<(Self, usize), ParseDataError>)
        ensures
            match r {
                Ok(p) => spec_parse_ptr(bytes@, 0) == Some((p.0@, p.1 as int)),
                Err(e) => {
                    &&& spec_parse_ptr(bytes@, 0) is None
                    &&& e == ParseDataError::InvalidByteStructure
                },
            },
    {
        if bytes.len() < 2 {
            return Err(ParseDataError::InvalidByteStructure);
        }
        let b0 = bytes[0];
        if b0 < 192 {
            return Err(ParseDataError::InvalidByteStructure);
        }
        let offset = ((b0 - 192) as u16) * 256 + (bytes[1] as u16);
        Ok((DomainPointer { offset }, 2))
    }
}

} // verus!
