//! The fixed twelve-octet message header of RFC 1035 section 4.1.1: the ID,
//! the bit-packed flags word (QR, OPCODE, AA, TC, RD, RA, Z, RCODE) and the
//! four section counts, all big-endian.

use vstd::prelude::*;

use crate::wire::{push_u16_be, read_u16_be, u16_be, u16_of};
use crate::ParseDataError;

verus! {

/// Whether a message is a query or a response: the QR bit.
#[derive(Debug, Clone, Copy, PartialEq, Eq, Structural)]
pub enum MessageType {
    Question,
    Answer,
}

/// The kind of query: the four-bit OPCODE. Values 3 through 15 are reserved
/// and all map to one variant.
#[derive(Debug, Clone, Copy, PartialEq, Eq, Structural)]
pub enum QueryOpcode {
    /// A standard query (QUERY)
    Query,
    /// An inverse query (IQUERY)
    Iquery,
    /// A server status request (STATUS)
    Status,
    /// Reserved for future use
    Reserved,
}

/// The response status: the four-bit RCODE. Values 6 through 15 are reserved
/// and all map to one variant. These are data carried in responses, never
/// errors of this library.
#[derive(Debug, Clone, Copy, PartialEq, Eq, Structural)]
pub enum ResponseCode {
    /// No error condition
    NoError,
    /// The name server was unable to interpret the query
    FormatError,
    /// The name server was unable to process the query
    ServerFailure,
    /// The queried domain name does not exist (authoritative answers only)
    NameError,
    /// The name server does not support the requested kind of query
    NotImplemented,
    /// The name server refuses to perform the operation for policy reasons
    Refused,
    /// Reserved for future use
    Reserved,
}

/// Which of the per-field failures header parsing can report.
#[derive(Debug, Clone, Copy, PartialEq, Eq, Structural)]
pub enum ParseHeaderError {
    IdError,
    QrError,
    OpcodeError,
    AaError,
    TcError,
    RdError,
    RaError,
    RcodeError,
    QdcountError,
    AncountError,
    NscountError,
    ArcountError,
}

pub open spec fn qr_code(m: MessageType) -> u16 {
    match m {
        MessageType::Question => 0,
        MessageType::Answer => 1,
    }
}

pub open spec fn qr_of(value: u16) -> Option<MessageType> {
    if value == 0 {
        Some(MessageType::Question)
    } else if value == 1 {
        Some(MessageType::Answer)
    } else {
        None
    }
}

pub open spec fn opcode_code(o: QueryOpcode) -> u16 {
    match o {
        QueryOpcode::Query => 0,
        QueryOpcode::Iquery => 1,
        QueryOpcode::Status => 2,
        QueryOpcode::Reserved => 3,
    }
}

pub open spec fn opcode_of(value: u16) -> Option<QueryOpcode> {
    if value == 0 {
        Some(QueryOpcode::Query)
    } else if value == 1 {
        Some(QueryOpcode::Iquery)
    } else if value == 2 {
        Some(QueryOpcode::Status)
    } else if 3 <= value <= 15 {
        Some(QueryOpcode::Reserved)
    } else {
        None
    }
}

pub open spec fn rcode_code(r: ResponseCode) -> u16 {
    match r {
        ResponseCode::NoError => 0,
        ResponseCode::FormatError => 1,
        ResponseCode::ServerFailure => 2,
        ResponseCode::NameError => 3,
        ResponseCode::NotImplemented => 4,
        ResponseCode::Refused => 5,
        ResponseCode::Reserved => 6,
    }
}

pub open spec fn rcode_of(value: u16) -> Option<ResponseCode> {
    if value == 0 {
        Some(ResponseCode::NoError)
    } else if value == 1 {
        Some(ResponseCode::FormatError)
    } else if value == 2 {
        Some(ResponseCode::ServerFailure)
    } else if value == 3 {
        Some(ResponseCode::NameError)
    } else if value == 4 {
        Some(ResponseCode::NotImplemented)
    } else if value == 5 {
        Some(ResponseCode::Refused)
    } else if 6 <= value <= 15 {
        Some(ResponseCode::Reserved)
    } else {
        None
    }
}

impl MessageType {
    pub fn try_from(value: u8) -> (r: Result<Self, ()>)
        ensures
            r == match qr_of(value as u16) {
                Some(m) => Ok::<MessageType, ()>(m),
                None => Err::<MessageType, ()>(()),
            },
    {
        match value {
            0 => Ok(MessageType::Question),
            1 => Ok(MessageType::Answer),
            _ => Err(()),
        }
    }
}

impl QueryOpcode {
    pub fn try_from(value: u8) -> (r: Result<Self, ()>)
        ensures
            r == match opcode_of(value as u16) {
                Some(o) => Ok::<QueryOpcode, ()>(o),
                None => Err::<QueryOpcode, ()>(()),
            },
    {
        if value == 0 {
            Ok(QueryOpcode::Query)
        } else if value == 1 {
            Ok(QueryOpcode::Iquery)
        } else if value == 2 {
            Ok(QueryOpcode::Status)
        } else if value <= 15 {
            Ok(QueryOpcode::Reserved)
        } else {
            Err(())
        }
    }
}

impl ResponseCode {
    pub fn try_from(value: u8) -> (r: Result<Self, ()>)
        ensures
            r == match rcode_of(value as u16) {
                Some(c) => Ok::<ResponseCode, ()>(c),
                None => Err::<ResponseCode, ()>(()),
            },
    {
        if value == 0 {
            Ok(ResponseCode::NoError)
        } else if value == 1 {
            Ok(ResponseCode::FormatError)
        } else if value == 2 {
            Ok(ResponseCode::ServerFailure)
        } else if value == 3 {
            Ok(ResponseCode::NameError)
        } else if value == 4 {
            Ok(ResponseCode::NotImplemented)
        } else if value == 5 {
            Ok(ResponseCode::Refused)
        } else if value <= 15 {
            Ok(ResponseCode::Reserved)
        } else {
            Err(())
        }
    }
}

/// A message header: the 16-bit ID echoed between query and response, the
/// packed flags word, and the entry counts of the four sections that follow.
/// The counts must match what is actually serialized after the header.
#[derive(Debug, Clone, Copy, PartialEq, Eq, Structural)]
pub struct Header {
    /// Assigned by the program that builds a query and copied verbatim into
    /// the matching response.
    pub id: u16,
    /// Query (0) or response (1).
    pub qr: MessageType,
    /// The kind of query; set by the originator and copied into the response.
    pub opcode: QueryOpcode,
    /// AA: the responding name server is an authority for the queried name.
    pub authoritative_ans: bool,
    /// TC: the message was truncated by the transmission channel.
    pub truncation: bool,
    /// RD: the originator asks the name server to pursue the query
    /// recursively.
    pub recursion_desired: bool,
    /// RA: the name server offers recursive query support.
    pub recursion_available: bool,
    /// The response status.
    pub response_code: ResponseCode,
    /// The number of question entries.
    pub qdcount: u16,
    /// The number of answer records.
    pub ancount: u16,
    /// The number of authority records.
    pub nscount: u16,
    /// The number of additional records.
    pub arcount: u16,
}

pub open spec fn bool_bit(b: bool) -> u16 {
    if b {
        1
    } else {
        0
    }
}

/// The second 16-bit word of the header: QR in bit 15, OPCODE in bits 14-11,
/// AA, TC, RD, RA in bits 10 down to 7, three zero Z bits, RCODE in the low
/// four bits.
pub open spec fn flags_word(h: Header) -> u16 {
    (qr_code(h.qr) * 0x8000 + opcode_code(h.opcode) * 0x800 + bool_bit(h.authoritative_ans) * 0x400
        + bool_bit(h.truncation) * 0x200 + bool_bit(h.recursion_desired) * 0x100 + bool_bit(
        h.recursion_available,
    ) * 0x80 + rcode_code(h.response_code)) as u16
}

/// The twelve wire octets of a header.
pub open spec fn header_wire(h: Header) -> Seq<u8> {
    u16_be(h.id) + u16_be(flags_word(h)) + u16_be(h.qdcount) + u16_be(h.ancount) + u16_be(h.nscount)
        + u16_be(h.arcount)
}

/// Decode the twelve leading octets as a header. Z bits are ignored; the
/// one-bit and four-bit fields always decode to a member of their closed
/// enumerations, so only a short buffer fails.
pub open spec fn spec_parse_header(b: Seq<u8>) -> Option<(Header, int)> {
    if b.len() >= 12 {
        let w = u16_of(b[2], b[3]);
        match (qr_of(w / 0x8000), opcode_of((w / 0x800) % 16), rcode_of(w % 16)) {
            (Some(qr), Some(opcode), Some(response_code)) => Some(
                (
                    Header {
                        id: u16_of(b[0], b[1]),
                        qr,
                        opcode,
                        authoritative_ans: (w / 0x400) % 2 == 1,
                        truncation: (w / 0x200) % 2 == 1,
                        recursion_desired: (w / 0x100) % 2 == 1,
                        recursion_available: (w / 0x80) % 2 == 1,
                        response_code,
                        qdcount: u16_of(b[4], b[5]),
                        ancount: u16_of(b[6], b[7]),
                        nscount: u16_of(b[8], b[9]),
                        arcount: u16_of(b[10], b[11]),
                    },
                    12,
                ),
            ),
            _ => None,
        }
    } else {
        None
    }
}

impl Header {
    #[allow(clippy::too_many_arguments)]
    pub fn new(
        id: u16,
        qr: MessageType,
        opcode: QueryOpcode,
        authoritative_ans: bool,
        truncation: bool,
        recursion_desired: bool,
        recursion_available: bool,
        response_code: ResponseCode,
        qdcount: u16,
        ancount: u16,
        nscount: u16,
        arcount: u16,
    ) -> (r: Self)
        ensures
            r == (Header {
                id,
                qr,
                opcode,
                authoritative_ans,
                truncation,
                recursion_desired,
                recursion_available,
                response_code,
                qdcount,
                ancount,
                nscount,
                arcount,
            }),
    {
        Header {
            id,
            qr,
            opcode,
            authoritative_ans,
            truncation,
            recursion_desired,
            recursion_available,
            response_code,
            qdcount,
            ancount,
            nscount,
            arcount,
        }
    }

    /// Start building a header with defaults around the one required field.
    pub fn builder(qr: MessageType) -> (r: HeaderBuilder)
        ensures
            r == HeaderBuilder::defaults(qr),
    {
        HeaderBuilder::new(qr)
    }

    /// The packed second word of the wire form.
    pub fn second_section(&self) -> (r: u16)
        ensures
            r == flags_word(*self),
    {
        let qr: u16 = match self.qr {
            MessageType::Question => 0,
            MessageType::Answer => 1,
        };
        let opcode: u16 = match self.opcode {
            QueryOpcode::Query => 0,
            QueryOpcode::Iquery => 1,
            QueryOpcode::Status => 2,
            QueryOpcode::Reserved => 3,
        };
        let aa: u16 = if self.authoritative_ans {
            1
        } else {
            0
        };
        let tc: u16 = if self.truncation {
            1
        } else {
            0
        };
        let rd: u16 = if self.recursion_desired {
            1
        } else {
            0
        };
        let ra: u16 = if self.recursion_available {
            1
        } else {
            0
        };
        let rcode: u16 = match self.response_code {
            ResponseCode::NoError => 0,
            ResponseCode::FormatError => 1,
            ResponseCode::ServerFailure => 2,
            ResponseCode::NameError => 3,
            ResponseCode::NotImplemented => 4,
            ResponseCode::Refused => 5,
            ResponseCode::Reserved => 6,
        };
        qr * 0x8000 + opcode * 0x800 + aa * 0x400 + tc * 0x200 + rd * 0x100 + ra * 0x80 + rcode
    }

    /// The twelve wire octets: ID, the packed flags word, then the four
    /// counts, big-endian.
    pub fn to_bytes(&self) -> (r: Vec<u8>)
        ensures
            r@ == header_wire(*self),
    {
        let mut out: Vec<u8> = Vec::new();
        push_u16_be(&mut out, self.id);
        push_u16_be(&mut out, self.second_section());
        push_u16_be(&mut out, self.qdcount);
        push_u16_be(&mut out, self.ancount);
        push_u16_be(&mut out, self.nscount);
        push_u16_be(&mut out, self.arcount);
        proof {
            assert(out@ =~= header_wire(*self));
        }
        out
    }

    /// Read a header from the front of `bytes`: twelve octets, bit fields
    /// extracted in wire order. Returns the header and the count of bytes
    /// consumed; fails only on a buffer shorter than twelve octets, since
    /// every bit pattern of the packed word decodes.
    pub fn parse(bytes: &[u8]) -> (r: Result<(Self, usize), ParseDataError>)
        ensures
            match r {
                Ok(p) => spec_parse_header(bytes@) == Some((p.0, p.1 as int)),
                Err(e) => {
                    &&& spec_parse_header(bytes@) is None
                    &&& e == ParseDataError::InvalidByteStructure
                },
            },
    {
        if bytes.len() < 12 {
            return Err(ParseDataError::InvalidByteStructure);
        }
        let id = read_u16_be(bytes, 0);
        let w = read_u16_be(bytes, 2);
        let qr = match MessageType::try_from((w / 0x8000) as u8) {
            Ok(m) => m,
            Err(_) => {
                return Err(ParseDataError::InvalidByteStructure);
            },
        };
        let opcode = match QueryOpcode::try_from(((w / 0x800) % 16) as u8) {
            Ok(o) => o,
            Err(_) => {
                return Err(ParseDataError::InvalidByteStructure);
            },
        };
        let rcode = match ResponseCode::try_from((w % 16) as u8) {
            Ok(c) => c,
            Err(_) => {
                return Err(ParseDataError::InvalidByteStructure);
            },
        };
        let header = Header {
            id,
            qr,
            opcode,
            authoritative_ans: (w / 0x400) % 2 == 1,
            truncation: (w / 0x200) % 2 == 1,
            recursion_desired: (w / 0x100) % 2 == 1,
            recursion_available: (w / 0x80) % 2 == 1,
            response_code: rcode,
            qdcount: read_u16_be(bytes, 4),
            ancount: read_u16_be(bytes, 6),
            nscount: read_u16_be(bytes, 8),
            arcount: read_u16_be(bytes, 10),
        };
        Ok((header, 12))
    }
}

/// A builder for headers: only the query/response bit is required up front,
/// every other field starts at its documented default.
#[derive(Debug, Clone, Copy, PartialEq, Eq, Structural)]
pub struct HeaderBuilder {
    /// Left unset, `finalize` draws a fresh random identifier — what a new
    /// outbound query wants. A response sets the ID of the query it answers.
    pub id: Option<u16>,
    /// The query/response bit, required up front.
    pub qr: MessageType,
    /// Defaults to a standard query.
    pub opcode: QueryOpcode,
    /// Defaults to false.
    pub authoritative_ans: bool,
    /// Defaults to false.
    pub truncation: bool,
    /// Defaults to false.
    pub recursion_desired: bool,
    /// Defaults to false.
    pub recursion_available: bool,
    /// Defaults to no error.
    pub response_code: ResponseCode,
    /// Defaults to 0.
    pub qdcount: u16,
    /// Defaults to 0.
    pub ancount: u16,
    /// Defaults to 0.
    pub nscount: u16,
    /// Defaults to 0.
    pub arcount: u16,
}

/// Relies on rand::random: a fresh 16-bit identifier for a new outbound
/// query. Nothing is promised of the value drawn.
#[verifier::external_body]
fn generate_id() -> u16 {
    rand::random::<u16>()
}

impl HeaderBuilder {
    /// The builder's starting state for a given QR bit.
    pub open spec fn defaults(qr: MessageType) -> HeaderBuilder {
        HeaderBuilder {
            id: None,
            qr,
            opcode: QueryOpcode::Query,
            authoritative_ans: false,
            truncation: false,
            recursion_desired: false,
            recursion_available: false,
            response_code: ResponseCode::NoError,
            qdcount: 0,
            ancount: 0,
            nscount: 0,
            arcount: 0,
        }
    }

    pub fn new(qr: MessageType) -> (r: Self)
        ensures
            r == Self::defaults(qr),
    {
        HeaderBuilder {
            id: None,
            qr,
            opcode: QueryOpcode::Query,
            authoritative_ans: false,
            truncation: false,
            recursion_desired: false,
            recursion_available: false,
            response_code: ResponseCode::NoError,
            qdcount: 0,
            ancount: 0,
            nscount: 0,
            arcount: 0,
        }
    }

    /// Produce the header. An unset ID is drawn at random; every other field
    /// is taken from the builder as it stands.
    pub fn finalize(self) -> (r: Header)
        ensures
            match self.id {
                Some(id) => r.id == id,
                None => true,
            },
            r.qr == self.qr,
            r.opcode == self.opcode,
            r.authoritative_ans == self.authoritative_ans,
            r.truncation == self.truncation,
            r.recursion_desired == self.recursion_desired,
            r.recursion_available == self.recursion_available,
            r.response_code == self.response_code,
            r.qdcount == self.qdcount,
            r.ancount == self.ancount,
            r.nscount == self.nscount,
            r.arcount == self.arcount,
    {
        let id = match self.id {
            Some(id) => id,
            None => generate_id(),
        };
        Header {
            id,
            qr: self.qr,
            opcode: self.opcode,
            authoritative_ans: self.authoritative_ans,
            truncation: self.truncation,
            recursion_desired: self.recursion_desired,
            recursion_available: self.recursion_available,
            response_code: self.response_code,
            qdcount: self.qdcount,
            ancount: self.ancount,
            nscount: self.nscount,
            arcount: self.arcount,
        }
    }

    pub fn set_id(self, id: u16) -> (r: Self)
        ensures
            r == (HeaderBuilder { id: Some(id), ..self }),
    {
        HeaderBuilder { id: Some(id), ..self }
    }

    pub fn set_opcode(self, opcode: QueryOpcode) -> (r: Self)
        ensures
            r == (HeaderBuilder { opcode, ..self }),
    {
        HeaderBuilder { opcode, ..self }
    }

    pub fn set_authoritative_ans(self, authoritative_ans: bool) -> (r: Self)
        ensures
            r == (HeaderBuilder { authoritative_ans, ..self }),
    {
        HeaderBuilder { authoritative_ans, ..self }
    }

    pub fn set_truncation(self, truncation: bool) -> (r: Self)
        ensures
            r == (HeaderBuilder { truncation, ..self }),
    {
        HeaderBuilder { truncation, ..self }
    }

    pub fn set_recursion_desired(self, recursion_desired: bool) -> (r: Self)
        ensures
            r == (HeaderBuilder { recursion_desired, ..self }),
    {
        HeaderBuilder { recursion_desired, ..self }
    }

    pub fn set_recursion_available(self, recursion_available: bool) -> (r: Self)
        ensures
            r == (HeaderBuilder { recursion_available, ..self }),
    {
        HeaderBuilder { recursion_available, ..self }
    }

    pub fn set_response_code(self, response_code: ResponseCode) -> (r: Self)
        ensures
            r == (HeaderBuilder { response_code, ..self }),
    {
        HeaderBuilder { response_code, ..self }
    }

    pub fn set_qdcount(self, qdcount: u16) -> (r: Self)
        ensures
            r == (HeaderBuilder { qdcount, ..self }),
    {
        HeaderBuilder { qdcount, ..self }
    }

    pub fn set_ancount(self, ancount: u16) -> (r: Self)
        ensures
            r == (HeaderBuilder { ancount, ..self }),
    {
        HeaderBuilder { ancount, ..self }
    }

    pub fn set_nscount(self, nscount: u16) -> (r: Self)
        ensures
            r == (HeaderBuilder { nscount, ..self }),
    {
        HeaderBuilder { nscount, ..self }
    }

    pub fn set_arcount(self, arcount: u16) -> (r: Self)
        ensures
            r == (HeaderBuilder { arcount, ..self }),
    {
        HeaderBuilder { arcount, ..self }
    }
}

/// Encoding then decoding a header gives back every field, except that a
/// reserved OPCODE or RCODE comes back as the one reserved variant.
#[verifier::rlimit(100)]
pub proof fn lemma_header_roundtrip(h: Header)
    ensures
        spec_parse_header(header_wire(h)) == Some((h, 12int)),
{
    let w = flags_word(h);
    let b = header_wire(h);
    assert(b[0] == u16_be(h.id)[0] && b[1] == u16_be(h.id)[1]);
    assert(b[2] == u16_be(w)[0] && b[3] == u16_be(w)[1]);
    assert(b[4] == u16_be(h.qdcount)[0] && b[5] == u16_be(h.qdcount)[1]);
    assert(b[6] == u16_be(h.ancount)[0] && b[7] == u16_be(h.ancount)[1]);
    assert(b[8] == u16_be(h.nscount)[0] && b[9] == u16_be(h.nscount)[1]);
    assert(b[10] == u16_be(h.arcount)[0] && b[11] == u16_be(h.arcount)[1]);
    crate::wire::lemma_u16_be_of(h.id);
    crate::wire::lemma_u16_be_of(w);
    crate::wire::lemma_u16_be_of(h.qdcount);
    crate::wire::lemma_u16_be_of(h.ancount);
    crate::wire::lemma_u16_be_of(h.nscount);
    crate::wire::lemma_u16_be_of(h.arcount);
    assert(w / 0x8000 == qr_code(h.qr) && (w / 0x800) % 16 == opcode_code(h.opcode) && (w / 0x400)
        % 2 == bool_bit(h.authoritative_ans) && (w / 0x200) % 2 == bool_bit(h.truncation) && (w
        / 0x100) % 2 == bool_bit(h.recursion_desired) && (w / 0x80) % 2 == bool_bit(
        h.recursion_available,
    ) && w % 16 == rcode_code(h.response_code)) by {
        let q = qr_code(h.qr) as int;
        let o = opcode_code(h.opcode) as int;
        let aa = bool_bit(h.authoritative_ans) as int;
        let tc = bool_bit(h.truncation) as int;
        let rd = bool_bit(h.recursion_desired) as int;
        let ra = bool_bit(h.recursion_available) as int;
        let rc = rcode_code(h.response_code) as int;
        assert(0 <= q <= 1 && 0 <= o <= 3 && 0 <= aa <= 1 && 0 <= tc <= 1 && 0 <= rd <= 1 && 0
            <= ra <= 1 && 0 <= rc <= 6);
        let v = q * 0x8000 + o * 0x800 + aa * 0x400 + tc * 0x200 + rd * 0x100 + ra * 0x80 + rc;
        assert(w == v);
        vstd::arithmetic::div_mod::lemma_fundamental_div_mod_converse(
            v,
            0x8000,
            q,
            o * 0x800 + aa * 0x400 + tc * 0x200 + rd * 0x100 + ra * 0x80 + rc,
        );
        vstd::arithmetic::div_mod::lemma_fundamental_div_mod_converse(
            v,
            0x800,
            q * 16 + o,
            aa * 0x400 + tc * 0x200 + rd * 0x100 + ra * 0x80 + rc,
        );
        vstd::arithmetic::div_mod::lemma_fundamental_div_mod_converse(
            v,
            0x400,
            q * 32 + o * 2 + aa,
            tc * 0x200 + rd * 0x100 + ra * 0x80 + rc,
        );
        vstd::arithmetic::div_mod::lemma_fundamental_div_mod_converse(
            v,
            0x200,
            q * 64 + o * 4 + aa * 2 + tc,
            rd * 0x100 + ra * 0x80 + rc,
        );
        vstd::arithmetic::div_mod::lemma_fundamental_div_mod_converse(
            v,
            0x100,
            q * 128 + o * 8 + aa * 4 + tc * 2 + rd,
            ra * 0x80 + rc,
        );
        vstd::arithmetic::div_mod::lemma_fundamental_div_mod_converse(
            v,
            0x80,
            q * 256 + o * 16 + aa * 8 + tc * 4 + rd * 2 + ra,
            rc,
        );
        vstd::arithmetic::div_mod::lemma_mod_multiples_vanish(
            q * 2048 + o * 128 + aa * 64 + tc * 32 + rd * 16 + ra * 8,
            rc,
            16,
        );
        vstd::arithmetic::div_mod::lemma_small_mod(rc as nat, 16);
        assert((q * 16 + o) % 16 == o) by {
            vstd::arithmetic::div_mod::lemma_mod_multiples_vanish(q, o, 16);
            vstd::arithmetic::div_mod::lemma_small_mod(o as nat, 16);
        }
        assert((q * 32 + o * 2 + aa) % 2 == aa) by {
            vstd::arithmetic::div_mod::lemma_mod_multiples_vanish(q * 16 + o, aa, 2);
            vstd::arithmetic::div_mod::lemma_small_mod(aa as nat, 2);
        }
        assert((q * 64 + o * 4 + aa * 2 + tc) % 2 == tc) by {
            vstd::arithmetic::div_mod::lemma_mod_multiples_vanish(q * 32 + o * 2 + aa, tc, 2);
            vstd::arithmetic::div_mod::lemma_small_mod(tc as nat, 2);
        }
        assert((q * 128 + o * 8 + aa * 4 + tc * 2 + rd) % 2 == rd) by {
            vstd::arithmetic::div_mod::lemma_mod_multiples_vanish(
                q * 64 + o * 4 + aa * 2 + tc,
                rd,
                2,
            );
            vstd::arithmetic::div_mod::lemma_small_mod(rd as nat, 2);
        }
        assert((q * 256 + o * 16 + aa * 8 + tc * 4 + rd * 2 + ra) % 2 == ra) by {
            vstd::arithmetic::div_mod::lemma_mod_multiples_vanish(
                q * 128 + o * 8 + aa * 4 + tc * 2 + rd,
                ra,
                2,
            );
            vstd::arithmetic::div_mod::lemma_small_mod(ra as nat, 2);
        }
        assert(v == 16 * (q * 2048 + o * 128 + aa * 64 + tc * 32 + rd * 16 + ra * 8) + rc);
    }
}

} // verus!
