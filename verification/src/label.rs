//! One component of a domain name. RFC 1035 section 3.1: each label is
//! represented as a one-octet length field followed by that number of octets,
//! and every domain name ends with the zero-length label of the root.

use vstd::prelude::*;

use crate::wire::{
    alnum_byte, alpha_byte, ascii_bytes, is_alnum_byte, is_alpha_byte, label_wire, lower_bytes,
    to_lower_byte,
};
use crate::ParseDataError;

verus! {

broadcast use vstd::string::is_ascii_spec_bytes;

/// Why a piece of text was rejected as a domain label.
#[derive(Debug, Clone, Copy, PartialEq, Eq, Structural)]
pub enum DomainLabelValidationError {
    /// The text is longer than 63 octets.
    LabelTooLong,
    /// The first character is not a letter.
    InvalidStartChar,
    /// The last character is not a letter or digit.
    InvalidEndChar,
    /// An interior character is not a letter, digit or hyphen.
    InvalidChar,
    /// The text is not pure ASCII.
    InvalidAscii,
}

/// The label text rules of RFC 1035: at most 63 octets; if non-empty, it
/// starts with a letter, ends with a letter or digit, and its interior
/// characters are letters, digits or hyphens. The checks are ordered as the
/// validator reports them.
pub open spec fn label_check(t: Seq<u8>) -> Result<(), DomainLabelValidationError> {
    if t.len() > 63 {
        Err(DomainLabelValidationError::LabelTooLong)
    } else if t.len() > 0 && !is_alpha_byte(t[0]) {
        Err(DomainLabelValidationError::InvalidStartChar)
    } else if exists|i: int| 1 <= i < t.len() - 1 && !(is_alnum_byte(t[i]) || t[i] == 45) {
        Err(DomainLabelValidationError::InvalidChar)
    } else if t.len() > 0 && !is_alnum_byte(t[t.len() - 1]) {
        Err(DomainLabelValidationError::InvalidEndChar)
    } else {
        Ok(())
    }
}

/// Valid label text: what `label_check` accepts.
pub open spec fn valid_label_text(t: Seq<u8>) -> bool {
    label_check(t) is Ok
}

/// Parse one length-prefixed label at `pos`: the text octets and the position
/// after them, or `None` if the buffer is shorter than the declared length.
pub open spec fn spec_parse_label(b: Seq<u8>, pos: int) -> Option<(Seq<u8>, int)> {
    if 0 <= pos < b.len() && pos + 1 + b[pos] <= b.len() {
        Some((b.subrange(pos + 1, pos + 1 + b[pos]), pos + 1 + b[pos]))
    } else {
        None
    }
}

/// A label within a domain name, held in wire form: a length octet followed
/// by the text octets. The view is the text alone. Only ASCII text is
/// supported; internationalized names are out of scope.
#[derive(Debug)]
pub struct DomainLabel {
    data: Vec<u8>,
}

impl View for DomainLabel {
    type V = Seq<u8>;

    closed spec fn view(&self) -> Seq<u8> {
        self.data@.drop_first()
    }
}

impl Clone for DomainLabel {
    fn clone(&self) -> (r: Self)
        ensures
            r@ == self@,
    {
        proof {
            use_type_invariant(self);
        }
        let data = crate::wire::clone_bytes(&self.data);
        DomainLabel { data }
    }
}

impl PartialEq for DomainLabel {
    /// Labels compare case-insensitively, as the DNS requires.
    fn eq(&self, other: &Self) -> (r: bool) {
        self.eq_label(other)
    }
}

impl Eq for DomainLabel {}

impl vstd::std_specs::cmp::PartialEqSpecImpl for DomainLabel {
    open spec fn obeys_eq_spec() -> bool {
        true
    }

    open spec fn eq_spec(&self, other: &Self) -> bool {
        lower_bytes(self@) == lower_bytes(other@)
    }
}

impl DomainLabel {
    /// The length octet stored up front always matches the text that follows.
    #[verifier::type_invariant]
    spec fn inv(self) -> bool {
        &&& 1 <= self.data@.len() <= 256
        &&& self.data@[0] == self.data@.len() - 1
    }

    /// Case-insensitive comparison with another label.
    pub fn eq_label(&self, other: &Self) -> (r: bool)
        ensures
            r == (lower_bytes(self@) == lower_bytes(other@)),
    {
        proof {
            use_type_invariant(self);
            use_type_invariant(other);
        }
        if self.data.len() != other.data.len() {
            proof {
                assert(lower_bytes(self@).len() != lower_bytes(other@).len());
            }
            return false;
        }
        let n = self.data.len();
        let mut i: usize = 1;
        while i < n
            invariant
                1 <= i <= n,
                n == self.data@.len() == other.data@.len(),
                self.inv(),
                other.inv(),
                forall|j: int|
                    1 <= j < i ==> crate::wire::lower_byte(#[trigger] self.data@[j])
                        == crate::wire::lower_byte(other.data@[j]),
            decreases n - i,
        {
            if to_lower_byte(self.data[i]) != to_lower_byte(other.data[i]) {
                proof {
                    assert(lower_bytes(self@)[i - 1] != lower_bytes(other@)[i - 1]);
                }
                return false;
            }
            i += 1;
        }
        proof {
            assert(lower_bytes(self@) =~= lower_bytes(other@));
        }
        true
    }

    /// Validate a piece of text as a label. Rejects non-ASCII text, text over
    /// 63 octets, and text breaking the character rules, reporting the first
    /// violation in validation order.
    pub fn try_from(value: &str) -> (r: Result<Self, DomainLabelValidationError>)
        ensures
            ({
                let t = ascii_bytes(value@);
                match r {
                    Ok(l) => value.is_ascii() && label_check(t) is Ok && l@ == t,
                    Err(e) => if !value.is_ascii() {
                        e == DomainLabelValidationError::InvalidAscii
                    } else {
                        label_check(t) == Err::<(), DomainLabelValidationError>(e)
                    },
                }
            }),
    {
        if !value.is_ascii() {
            return Err(DomainLabelValidationError::InvalidAscii);
        }
        let b: &[u8] = value.as_bytes();
        proof {
            assert(b@ =~= ascii_bytes(value@));
        }
        Self::try_from_text_bytes(b)
    }

    /// Validate ASCII text bytes as a label.
    pub fn try_from_text_bytes(b: &[u8]) -> (r: Result<Self, DomainLabelValidationError>)
        ensures
            match r {
                Ok(l) => label_check(b@) is Ok && l@ == b@,
                Err(e) => label_check(b@) == Err::<(), DomainLabelValidationError>(e),
            },
    {
        let n = b.len();
        if n > 63 {
            return Err(DomainLabelValidationError::LabelTooLong);
        }
        if n > 0 && !alpha_byte(b[0]) {
            return Err(DomainLabelValidationError::InvalidStartChar);
        }
        if n > 0 {
            let mut i: usize = 1;
            while i + 1 < n
                invariant
                    1 <= i,
                    i + 1 <= n || i == 1,
                    n == b@.len() <= 63,
                    n > 0,
                    is_alpha_byte(b@[0]),
                    forall|j: int| 1 <= j < i ==> (is_alnum_byte(b@[j]) || b@[j] == 45),
                decreases n - i,
            {
                if !alnum_byte(b[i]) && b[i] != 45 {
                    proof {
                        let gi = i as int;
                        assert(1 <= gi < b@.len() - 1 && !(is_alnum_byte(b@[gi]) || b@[gi] == 45));
                    }
                    return Err(DomainLabelValidationError::InvalidChar);
                }
                i += 1;
            }
            if !alnum_byte(b[n - 1]) {
                return Err(DomainLabelValidationError::InvalidEndChar);
            }
        }
        let mut data: Vec<u8> = Vec::new();
        data.push(n as u8);
        data.extend_from_slice(b);
        proof {
            assert(data@.drop_first() =~= b@);
        }
        Ok(DomainLabel { data })
    }

    /// Read one label from the front of `bytes`: a length octet, then that
    /// many text octets. Returns the label and the count of bytes consumed.
    pub fn parse(bytes: &[u8]) -> (r: Result<(Self, usize), ParseDataError>)
        ensures
            match r {
                Ok(p) => spec_parse_label(bytes@, 0) == Some((p.0@, p.1 as int)),
                Err(e) => {
                    &&& spec_parse_label(bytes@, 0) is None
                    &&& e == ParseDataError::InvalidByteStructure
                },
            },
    {
        Self::parse_at(bytes, 0)
    }

    /// Read one label at position `pos` of `bytes`. Returns the label and the
    /// position just after it.
    pub fn parse_at(bytes: &[u8], pos: usize) -> (r: Result<(Self, usize), ParseDataError>)
        ensures
            match r {
                Ok(p) => spec_parse_label(bytes@, pos as int) == Some((p.0@, p.1 as int)),
                Err(e) => {
                    &&& spec_parse_label(bytes@, pos as int) is None
                    &&& e == ParseDataError::InvalidByteStructure
                },
            },
    {
        if pos >= bytes.len() {
            return Err(ParseDataError::InvalidByteStructure);
        }
        let n = bytes[pos] as usize;
        let rem = bytes.len() - pos;
        if n >= rem {
            return Err(ParseDataError::InvalidByteStructure);
        }
        let mut data: Vec<u8> = Vec::new();
        data.push(bytes[pos]);
        let text = vstd::slice::slice_subrange(bytes, pos + 1, pos + 1 + n);
        data.extend_from_slice(text);
        proof {
            assert(data@.drop_first() =~= bytes@.subrange(
                pos as int + 1,
                pos as int + 1 + bytes@[pos as int],
            ));
        }
        Ok((DomainLabel { data }, pos + 1 + n))
    }

    /// The empty label, whose wire form is the single octet `0`; it
    /// terminates every serialized domain name.
    pub fn new_empty() -> (r: Self)
        ensures
            r@ == Seq::<u8>::empty(),
    {
        let mut data: Vec<u8> = Vec::new();
        data.push(0);
        proof {
            assert(data@.drop_first() =~= Seq::<u8>::empty());
        }
        DomainLabel { data }
    }

    /// The wire form of the label: the length octet, then the text octets.
    pub fn as_bytes(&self) -> (r: &[u8])
        ensures
            r@ == label_wire(self@),
    {
        proof {
            use_type_invariant(self);
            assert(self.data@ =~= label_wire(self@));
        }
        self.data.as_slice()
    }

    /// The wire form of the label as an owned vector.
    pub fn to_bytes(&self) -> (r: Vec<u8>)
        ensures
            r@ == label_wire(self@),
    {
        proof {
            use_type_invariant(self);
            assert(self.data@ =~= label_wire(self@));
        }
        crate::wire::clone_bytes(&self.data)
    }

    /// The length of the label text, not counting the length octet.
    pub fn len(&self) -> (r: usize)
        ensures
            r == self@.len(),
    {
        proof {
            use_type_invariant(self);
        }
        self.data.len() - 1
    }

    /// The length of the wire form: the text plus its length octet.
    pub fn len_bytes(&self) -> (r: usize)
        ensures
            r == self@.len() + 1,
    {
        proof {
            use_type_invariant(self);
        }
        self.data.len()
    }

    pub fn is_empty(&self) -> (r: bool)
        ensures
            r == (self@.len() == 0),
    {
        proof {
            use_type_invariant(self);
        }
        self.data.len() == 1
    }

}

} // verus!
