//! Resource records: NAME + TYPE + CLASS + TTL + RDLENGTH + RDATA, with the
//! TYPE-directed dispatch into the RDATA variants. RDLENGTH is never stored:
//! it is recomputed from the serialized RDATA on encode, and consumed on
//! decode to bound the RDATA slice.

use vstd::prelude::*;

use crate::compress::{compress_name_out, spec_parse_cname, SerializeCompressedOutcome};
use crate::label_map::{insert_from, LabelMap};
use crate::name::{lower_texts, spec_parse_name, DomainName};
use crate::rdata::{
    spec_parse_ardata, spec_parse_soa, spec_parse_txt, soa_wire, txt_wire, ARdata, CnameBytes,
    NsdnameBytes, PtrBytes, SoaBytes, SoaView, TxtBytes,
};
use crate::rr_types::{
    rr_class_code, rr_class_of, rr_type_code, rr_type_of, ResourceRecordClass, ResourceRecordType,
};
use crate::wire::{
    i32_be, i32_of_bits, name_wire, push_i32_be, push_u16_be, read_i32_be, read_u16_be, u16_be,
    u16_of, u32_of,
};
use crate::{MessageOffset, ParseDataError};

verus! {

/// The abstract content of an RDATA payload, keyed by variant.
pub ghost enum RdataView {
    Cname(Seq<Seq<u8>>),
    Ns(Seq<Seq<u8>>),
    Ptr(Seq<Seq<u8>>),
    Soa(SoaView),
    Txt(Seq<Seq<u8>>),
    A(Seq<u8>),
}

/// The wire form of an RDATA payload.
pub open spec fn rdata_wire(v: RdataView) -> Seq<u8> {
    match v {
        RdataView::Cname(ls) => name_wire(ls),
        RdataView::Ns(ls) => name_wire(ls),
        RdataView::Ptr(ls) => name_wire(ls),
        RdataView::Soa(s) => soa_wire(s),
        RdataView::Txt(ts) => txt_wire(ts),
        RdataView::A(bs) => bs,
    }
}

/// The TYPE code of an RDATA variant.
pub open spec fn rdata_type(v: RdataView) -> ResourceRecordType {
    match v {
        RdataView::Cname(_) => ResourceRecordType::Cname,
        RdataView::Ns(_) => ResourceRecordType::Ns,
        RdataView::Ptr(_) => ResourceRecordType::Ptr,
        RdataView::Soa(_) => ResourceRecordType::Soa,
        RdataView::Txt(_) => ResourceRecordType::Txt,
        RdataView::A(_) => ResourceRecordType::A,
    }
}

/// Dispatch on TYPE and parse an RDATA payload from its length-bounded slice.
/// Bytes the variant's parser leaves over are ignored, and a TYPE without a
/// decoder rejects the record.
pub open spec fn spec_parse_rdata(t: ResourceRecordType, b: Seq<u8>) -> Option<RdataView> {
    match t {
        ResourceRecordType::A => match spec_parse_ardata(b, 0) {
            Some((bs, _)) => Some(RdataView::A(bs)),
            None => None,
        },
        ResourceRecordType::Ns => match spec_parse_name(b, 0) {
            Some((ls, _)) => Some(RdataView::Ns(ls)),
            None => None,
        },
        ResourceRecordType::Cname => match spec_parse_name(b, 0) {
            Some((ls, _)) => Some(RdataView::Cname(ls)),
            None => None,
        },
        ResourceRecordType::Soa => match spec_parse_soa(b, 0) {
            Some((s, _)) => Some(RdataView::Soa(s)),
            None => None,
        },
        ResourceRecordType::Ptr => match spec_parse_name(b, 0) {
            Some((ls, _)) => Some(RdataView::Ptr(ls)),
            None => None,
        },
        ResourceRecordType::Txt => Some(RdataView::Txt(spec_parse_txt(b, 0).0)),
        _ => None,
    }
}

/// An RDATA payload: one variant per decodable TYPE.
#[derive(Debug, PartialEq)]
pub enum Rdata {
    Cname(CnameBytes),
    Ns(NsdnameBytes),
    Ptr(PtrBytes),
    Soa(SoaBytes),
    Txt(TxtBytes),
    A(ARdata),
}

impl View for Rdata {
    type V = RdataView;

    closed spec fn view(&self) -> RdataView {
        match self {
            Rdata::Cname(d) => RdataView::Cname(d@),
            Rdata::Ns(d) => RdataView::Ns(d@),
            Rdata::Ptr(d) => RdataView::Ptr(d@),
            Rdata::Soa(d) => RdataView::Soa(d@),
            Rdata::Txt(d) => RdataView::Txt(d@),
            Rdata::A(d) => RdataView::A(d@),
        }
    }
}

impl Rdata {
    /// The wire form of the payload.
    pub fn to_bytes(&self) -> (r: Vec<u8>)
        ensures
            r@ == rdata_wire(self@),
    {
        match self {
            Rdata::Cname(d) => d.to_bytes(),
            Rdata::Ns(d) => d.to_bytes(),
            Rdata::Ptr(d) => d.to_bytes(),
            Rdata::Soa(d) => d.to_bytes(),
            Rdata::Txt(d) => d.to_bytes(),
            Rdata::A(d) => d.to_bytes(),
        }
    }

    /// The TYPE code matching the variant.
    pub fn rtype(&self) -> (r: ResourceRecordType)
        ensures
            r == rdata_type(self@),
    {
        match self {
            Rdata::Cname(_) => ResourceRecordType::Cname,
            Rdata::Ns(_) => ResourceRecordType::Ns,
            Rdata::Ptr(_) => ResourceRecordType::Ptr,
            Rdata::Soa(_) => ResourceRecordType::Soa,
            Rdata::Txt(_) => ResourceRecordType::Txt,
            Rdata::A(_) => ResourceRecordType::A,
        }
    }

    /// Dispatch on `rtype` and parse the payload from the RDLENGTH-bounded
    /// slice.
    pub fn parse(rtype: ResourceRecordType, bytes: &[u8]) -> (r: Option<Self>)
        ensures
            match r {
                Some(d) => spec_parse_rdata(rtype, bytes@) == Some(d@),
                None => spec_parse_rdata(rtype, bytes@) is None,
            },
    {
        match rtype {
            ResourceRecordType::A => match ARdata::parse(bytes) {
                Ok((d, _)) => Some(Rdata::A(d)),
                Err(_) => None,
            },
            ResourceRecordType::Ns => match NsdnameBytes::parse(bytes) {
                Ok((d, _)) => Some(Rdata::Ns(d)),
                Err(_) => None,
            },
            ResourceRecordType::Cname => match CnameBytes::parse(bytes) {
                Ok((d, _)) => Some(Rdata::Cname(d)),
                Err(_) => None,
            },
            ResourceRecordType::Soa => match SoaBytes::parse(bytes) {
                Ok((d, _)) => Some(Rdata::Soa(d)),
                Err(_) => None,
            },
            ResourceRecordType::Ptr => match PtrBytes::parse(bytes) {
                Ok((d, _)) => Some(Rdata::Ptr(d)),
                Err(_) => None,
            },
            ResourceRecordType::Txt => match TxtBytes::parse(bytes) {
                Ok((d, _)) => Some(Rdata::Txt(d)),
                Err(_) => None,
            },
            _ => None,
        }
    }

    /// The wire length of the payload, as carried by RDLENGTH.
    pub fn len_bytes(&self) -> (r: u16)
        requires
            rdata_wire(self@).len() <= 0xFFFF,
        ensures
            r == rdata_wire(self@).len(),
    {
        let bytes = self.to_bytes();
        bytes.len() as u16
    }
}

/// The abstract content of a resource record.
pub ghost struct ResourceRecordView {
    pub name: Seq<Seq<u8>>,
    pub rtype: ResourceRecordType,
    pub class: ResourceRecordClass,
    pub ttl: i32,
    pub rdata: RdataView,
}

/// The fixed fields after a record's name: TYPE, CLASS, TTL, RDLENGTH, then
/// the RDATA bytes.
pub open spec fn rr_fixed_wire(v: ResourceRecordView) -> Seq<u8> {
    u16_be(rr_type_code(v.rtype)) + u16_be(rr_class_code(v.class)) + i32_be(v.ttl) + u16_be(
        rdata_wire(v.rdata).len() as u16,
    ) + rdata_wire(v.rdata)
}

/// The plain wire form of a resource record.
pub open spec fn rr_wire(v: ResourceRecordView) -> Seq<u8> {
    name_wire(v.name) + rr_fixed_wire(v)
}

/// The compressed wire form of a resource record against dictionary `m`: only
/// the owner name is compressed.
pub open spec fn compress_rr_out(m: Map<Seq<Seq<u8>>, u16>, v: ResourceRecordView) -> Seq<u8> {
    compress_name_out(m, v.name) + rr_fixed_wire(v)
}

/// Parse the fixed fields and payload after a record's name at `e`.
pub open spec fn spec_parse_rr_fixed(b: Seq<u8>, name: Seq<Seq<u8>>, e: int) -> Option<
    (ResourceRecordView, int),
> {
    if e + 10 <= b.len() {
        let rdlength = u16_of(b[e + 8], b[e + 9]);
        match (rr_type_of(u16_of(b[e], b[e + 1])), rr_class_of(u16_of(b[e + 2], b[e + 3]))) {
            (Some(t), Some(c)) => if e + 10 + rdlength <= b.len() {
                match spec_parse_rdata(t, b.subrange(e + 10, e + 10 + rdlength)) {
                    Some(rv) => Some(
                        (
                            ResourceRecordView {
                                name,
                                rtype: t,
                                class: c,
                                ttl: i32_of_bits(
                                    u32_of(b[e + 4], b[e + 5], b[e + 6], b[e + 7]),
                                ),
                                rdata: rv,
                            },
                            e + 10 + rdlength,
                        ),
                    ),
                    None => None,
                }
            } else {
                None
            },
            _ => None,
        }
    } else {
        None
    }
}

/// Parse a plain resource record at `pos`.
pub open spec fn spec_parse_rr(b: Seq<u8>, pos: int) -> Option<(ResourceRecordView, int)> {
    match spec_parse_name(b, pos) {
        None => None,
        Some((name, e)) => spec_parse_rr_fixed(b, name, e),
    }
}

/// Parse a compressed resource record at `pos`: a possibly compressed owner
/// name, then the fixed fields. Any failure surfaces as a malformed
/// structure.
pub open spec fn spec_parse_crr(b: Seq<u8>, pos: int) -> Result<
    (ResourceRecordView, int),
    ParseDataError,
> {
    match spec_parse_cname(b, pos, pos) {
        Err(_) => Err(ParseDataError::InvalidByteStructure),
        Ok((name, e)) => match spec_parse_rr_fixed(b, name, e) {
            Some(p) => Ok(p),
            None => Err(ParseDataError::InvalidByteStructure),
        },
    }
}

/// A well-formed RDATA payload: embedded names well-formed, TXT strings
/// within the character-string bounds, address data four octets.
pub open spec fn wf_rdata(v: RdataView) -> bool {
    match v {
        RdataView::Cname(ls) => crate::name::wf_name(ls),
        RdataView::Ns(ls) => crate::name::wf_name(ls),
        RdataView::Ptr(ls) => crate::name::wf_name(ls),
        RdataView::Soa(s) => crate::name::wf_name(s.mname) && crate::name::wf_name(s.rname),
        RdataView::Txt(ts) => forall|i: int|
            0 <= i < ts.len() ==> (#[trigger] ts[i]).len() <= 255 && crate::types::all_ascii(
                ts[i],
            ),
        RdataView::A(bs) => bs.len() == 4,
    }
}

/// Round trip for RDATA: the wire form of any well-formed payload, taken as
/// its own length-bounded slice, parses back to exactly the same payload.
pub proof fn lemma_rdata_wire_roundtrip(v: RdataView)
    requires
        wf_rdata(v),
    ensures
        spec_parse_rdata(rdata_type(v), rdata_wire(v)) == Some(v),
{
    match v {
        RdataView::Cname(ls) => {
            crate::name::lemma_name_wire_roundtrip(ls);
        },
        RdataView::Ns(ls) => {
            crate::name::lemma_name_wire_roundtrip(ls);
        },
        RdataView::Ptr(ls) => {
            crate::name::lemma_name_wire_roundtrip(ls);
        },
        RdataView::Soa(s) => {
            crate::rdata::lemma_soa_wire_roundtrip(s);
        },
        RdataView::Txt(ts) => {
            crate::rdata::lemma_txt_wire_roundtrip(ts);
        },
        RdataView::A(bs) => {
            assert(bs.subrange(0, 4) =~= bs);
        },
    }
}

/// One resource record: an owner name and its typed payload.
#[derive(Debug, PartialEq)]
pub struct ResourceRecord {
    name: DomainName,
    rtype: ResourceRecordType,
    class: ResourceRecordClass,
    ttl: i32,
    rdata: Rdata,
}

impl View for ResourceRecord {
    type V = ResourceRecordView;

    closed spec fn view(&self) -> ResourceRecordView {
        ResourceRecordView {
            name: self.name@,
            rtype: self.rtype,
            class: self.class,
            ttl: self.ttl,
            rdata: self.rdata@,
        }
    }
}

impl ResourceRecord {
    pub fn new(
        name: DomainName,
        rtype: ResourceRecordType,
        class: ResourceRecordClass,
        ttl: i32,
        rdata: Rdata,
    ) -> (r: Self)
        ensures
            r@ == (ResourceRecordView { name: name@, rtype, class, ttl, rdata: rdata@ }),
    {
        ResourceRecord { name, rtype, class, ttl, rdata }
    }

    pub fn name(&self) -> (r: &DomainName)
        ensures
            r@ == self@.name,
    {
        &self.name
    }

    pub fn rtype(&self) -> (r: ResourceRecordType)
        ensures
            r == self@.rtype,
    {
        self.rtype
    }

    pub fn class(&self) -> (r: ResourceRecordClass)
        ensures
            r == self@.class,
    {
        self.class
    }

    pub fn ttl(&self) -> (r: i32)
        ensures
            r == self@.ttl,
    {
        self.ttl
    }

    pub fn rdata(&self) -> (r: &Rdata)
        ensures
            r@ == self@.rdata,
    {
        &self.rdata
    }

    /// The fixed fields and payload: TYPE, CLASS, TTL, RDLENGTH (recomputed
    /// from the payload), RDATA.
    fn push_fixed(&self, out: &mut Vec<u8>)
        requires
            rdata_wire(self@.rdata).len() <= 0xFFFF,
        ensures
            final(out)@ == old(out)@ + rr_fixed_wire(self@),
    {
        push_u16_be(out, self.rtype.code());
        push_u16_be(out, self.class.code());
        push_i32_be(out, self.ttl);
        let rdata_bytes = self.rdata.to_bytes();
        push_u16_be(out, rdata_bytes.len() as u16);
        let mut rdata_bytes = rdata_bytes;
        out.append(&mut rdata_bytes);
        proof {
            assert(final(out)@ =~= old(out)@ + rr_fixed_wire(self@));
        }
    }

    /// The plain wire form: the owner name uncompressed, then the fixed
    /// fields and payload.
    pub fn to_bytes(&self) -> (r: Vec<u8>)
        requires
            rdata_wire(self@.rdata).len() <= 0xFFFF,
        ensures
            r@ == rr_wire(self@),
    {
        let mut out = self.name.to_bytes();
        self.push_fixed(&mut out);
        out
    }

    /// Parse a plain resource record from the front of `bytes`. Returns the
    /// record and the count of bytes consumed.
    pub fn parse(bytes: &[u8]) -> (r: Result<(Self, usize), ParseDataError>)
        ensures
            match r {
                Ok(p) => spec_parse_rr(bytes@, 0) == Some((p.0@, p.1 as int)),
                Err(e) => {
                    &&& spec_parse_rr(bytes@, 0) is None
                    &&& e == ParseDataError::InvalidByteStructure
                },
            },
    {
        Self::parse_at(bytes, 0)
    }

    /// Parse the fixed fields and payload after the owner name.
    fn parse_fixed(bytes: &[u8], name: DomainName, e: usize) -> (r: Result<
        (Self, usize),
        ParseDataError,
    >)
        ensures
            match r {
                Ok(p) => spec_parse_rr_fixed(bytes@, name@, e as int) == Some((p.0@, p.1 as int)),
                Err(er) => {
                    &&& spec_parse_rr_fixed(bytes@, name@, e as int) is None
                    &&& er == ParseDataError::InvalidByteStructure
                },
            },
    {
        if bytes.len() < 10 || e > bytes.len() - 10 {
            return Err(ParseDataError::InvalidByteStructure);
        }
        let type_code = read_u16_be(bytes, e);
        let class_code = read_u16_be(bytes, e + 2);
        let ttl = read_i32_be(bytes, e + 4);
        let rdlength = read_u16_be(bytes, e + 8) as usize;
        let rtype = match ResourceRecordType::try_from(type_code) {
            Ok(t) => t,
            Err(_) => {
                return Err(ParseDataError::InvalidByteStructure);
            },
        };
        let class = match ResourceRecordClass::try_from(class_code) {
            Ok(c) => c,
            Err(_) => {
                return Err(ParseDataError::InvalidByteStructure);
            },
        };
        if rdlength > bytes.len() - (e + 10) {
            return Err(ParseDataError::InvalidByteStructure);
        }
        let rdata_slice = vstd::slice::slice_subrange(bytes, e + 10, e + 10 + rdlength);
        let rdata = match Rdata::parse(rtype, rdata_slice) {
            Some(d) => d,
            None => {
                return Err(ParseDataError::InvalidByteStructure);
            },
        };
        Ok((ResourceRecord { name, rtype, class, ttl, rdata }, e + 10 + rdlength))
    }

    /// Parse a plain resource record at position `pos` of `bytes`.
    pub fn parse_at(bytes: &[u8], pos: usize) -> (r: Result<(Self, usize), ParseDataError>)
        ensures
            match r {
                Ok(p) => spec_parse_rr(bytes@, pos as int) == Some((p.0@, p.1 as int)),
                Err(e) => {
                    &&& spec_parse_rr(bytes@, pos as int) is None
                    &&& e == ParseDataError::InvalidByteStructure
                },
            },
    {
        let (name, e) = match DomainName::parse_at(bytes, pos) {
            Ok(p) => p,
            Err(_) => {
                return Err(ParseDataError::InvalidByteStructure);
            },
        };
        Self::parse_fixed(bytes, name, e)
    }

    /// Serialize the record against the dictionary: the owner name compressed
    /// per the dictionary, then the fixed fields and payload.
    pub fn to_bytes_compressed(&self, base_offset: MessageOffset, label_map: &mut LabelMap) -> (outcome:
        SerializeCompressedOutcome)
        requires
            old(label_map).wf(),
            self@.name.len() > 0,
            base_offset + rr_wire(self@).len() <= 0x4000,
        ensures
            final(label_map).wf(),
            final(label_map)@ == insert_from(
                old(label_map)@,
                lower_texts(self@.name),
                base_offset as int,
                0,
            ),
            outcome.compressed_bytes@ == compress_rr_out(old(label_map)@, self@),
            outcome.new_offset == base_offset + compress_rr_out(old(label_map)@, self@).len(),
    {
        proof {
            crate::compress::lemma_compress_out_len(label_map@, self@.name);
        }
        let result = self.name.to_bytes_compressed(base_offset, label_map);
        let mut bytes = result.compressed_bytes;
        self.push_fixed(&mut bytes);
        proof {
            assert(bytes@ =~= compress_rr_out(old(label_map)@, self@));
        }
        let new_offset = base_offset + (bytes.len() as u16);
        SerializeCompressedOutcome { compressed_bytes: bytes, new_offset }
    }

    /// Parse a compressed resource record at `base_offset` of the full
    /// message. Returns the record and the offset just after it.
    pub fn parse_compressed(full_message_bytes: &[u8], base_offset: MessageOffset) -> (r: Result<
        (Self, MessageOffset),
        ParseDataError,
    >)
        requires
            full_message_bytes@.len() <= 0xFFFF,
        ensures
            match r {
                Ok(p) => spec_parse_crr(full_message_bytes@, base_offset as int) == Ok::<
                    (ResourceRecordView, int),
                    ParseDataError,
                >((p.0@, p.1 as int)),
                Err(e) => {
                    &&& spec_parse_crr(full_message_bytes@, base_offset as int) is Err
                    &&& e == ParseDataError::InvalidByteStructure
                },
            },
    {
        let (name, e) = match DomainName::parse_compressed(full_message_bytes, base_offset) {
            Ok(p) => p,
            Err(_) => {
                return Err(ParseDataError::InvalidByteStructure);
            },
        };
        match Self::parse_fixed(full_message_bytes, name, e as usize) {
            Ok((rr, end)) => Ok((rr, end as u16)),
            Err(er) => Err(er),
        }
    }
}

/// A successful fixed-field parse reads only within `b`: appending bytes
/// changes nothing about it.
pub proof fn lemma_parse_rr_fixed_extend(b: Seq<u8>, ext: Seq<u8>, name: Seq<Seq<u8>>, e: int)
    requires
        0 <= e,
        spec_parse_rr_fixed(b, name, e) is Some,
    ensures
        spec_parse_rr_fixed(b + ext, name, e) == spec_parse_rr_fixed(b, name, e),
{
    let w = b + ext;
    assert(e + 10 <= b.len());
    assert forall|t: int| 0 <= t < 10 implies #[trigger] w[e + t] == b[e + t] by {
        assert(e + t < b.len());
    }
    let rdlength = u16_of(b[e + 8], b[e + 9]);
    assert(e + 10 + rdlength <= b.len());
    assert(w.subrange(e + 10, e + 10 + rdlength) =~= b.subrange(e + 10, e + 10 + rdlength));
}

/// A successful compressed-record parse reads only within `b`: appending
/// bytes changes nothing about it.
pub proof fn lemma_parse_crr_extend(b: Seq<u8>, ext: Seq<u8>, pos: int)
    requires
        spec_parse_crr(b, pos) is Ok,
    ensures
        spec_parse_crr(b + ext, pos) == spec_parse_crr(b, pos),
{
    match spec_parse_cname(b, pos, pos) {
        Ok((name, e)) => {
            crate::compress::lemma_parse_cname_end(b, pos, pos);
            crate::compress::lemma_parse_cname_extend(b, ext, pos, pos);
            lemma_parse_rr_fixed_extend(b, ext, name, e);
        },
        Err(_) => {
            assert(false);
        },
    }
}

/// A well-formed record: a non-empty well-formed owner name, a payload whose
/// variant matches the TYPE field, and a payload small enough for RDLENGTH.
pub open spec fn wf_rr(v: ResourceRecordView) -> bool {
    &&& crate::name::wf_name(v.name)
    &&& v.name.len() > 0
    &&& wf_rdata(v.rdata)
    &&& v.rtype == rdata_type(v.rdata)
    &&& rdata_wire(v.rdata).len() <= 0xFFFF
}

/// Compression round-trip, one record at a time. Serializing a well-formed
/// record against a truthful dictionary at the end of the message gives bytes
/// that parse back to a record with an equal (case-insensitive) owner name
/// and identical fixed fields and payload, consuming exactly the emitted
/// bytes; and the dictionary stays truthful about the grown message.
pub proof fn lemma_rr_compress_roundtrip(
    m: Map<Seq<Seq<u8>>, u16>,
    v: ResourceRecordView,
    b: Seq<u8>,
)
    requires
        crate::compress::map_tracks(m, b),
        wf_rr(v),
        b.len() + rr_wire(v).len() <= 0x4000,
    ensures
        ({
            let out = compress_rr_out(m, v);
            let b2 = b + out;
            let base = b.len() as int;
            &&& crate::compress::map_tracks(
                insert_from(m, lower_texts(v.name), base, 0),
                b2,
            )
            &&& match spec_parse_crr(b2, base) {
                Ok((v2, e)) => {
                    &&& lower_texts(v2.name) == lower_texts(v.name)
                    &&& v2.rtype == v.rtype
                    &&& v2.class == v.class
                    &&& v2.ttl == v.ttl
                    &&& v2.rdata == v.rdata
                    &&& e == base + out.len()
                },
                Err(_) => false,
            }
        }),
{
    let base = b.len() as int;
    let name_out = compress_name_out(m, v.name);
    let fixed = rr_fixed_wire(v);
    let out = compress_rr_out(m, v);
    let b2 = b + out;
    assert(out =~= name_out + fixed);
    assert(rr_wire(v).len() == name_wire(v.name).len() + fixed.len());
    crate::compress::lemma_compress_name_roundtrip(m, v.name, b);
    let bn = b + name_out;
    assert(b2 =~= bn + fixed);
    match crate::compress::spec_parse_cname(bn, base, base) {
        Ok((ls2, e_name)) => {
            crate::compress::lemma_parse_cname_extend(bn, fixed, base, base);
            assert(e_name == base + name_out.len());
            let rdw = rdata_wire(v.rdata);
            assert(fixed.len() == 10 + rdw.len());
            assert(e_name + 10 + rdw.len() <= b2.len());
            assert forall|t: int| 0 <= t < fixed.len() implies b2[e_name + t] == fixed[t] by {
                assert(b2[e_name + t] == out[name_out.len() + t]);
            }
            crate::wire::lemma_u16_be_of(rr_type_code(v.rtype));
            crate::wire::lemma_u16_be_of(rr_class_code(v.class));
            crate::wire::lemma_u32_be_of(crate::wire::i32_bits(v.ttl));
            crate::wire::lemma_u16_be_of(rdw.len() as u16);
            crate::rr_types::lemma_rr_type_roundtrip(v.rtype);
            crate::rr_types::lemma_rr_class_roundtrip(v.class);
            assert(u16_of(b2[e_name], b2[e_name + 1]) == rr_type_code(v.rtype));
            assert(u16_of(b2[e_name + 2], b2[e_name + 3]) == rr_class_code(v.class));
            assert(u32_of(b2[e_name + 4], b2[e_name + 5], b2[e_name + 6], b2[e_name + 7])
                == crate::wire::i32_bits(v.ttl));
            assert(i32_of_bits(crate::wire::i32_bits(v.ttl)) == v.ttl);
            assert(u16_of(b2[e_name + 8], b2[e_name + 9]) == rdw.len() as u16);
            assert(b2.subrange(e_name + 10, e_name + 10 + rdw.len()) =~= rdw) by {
                assert forall|t: int| 0 <= t < rdw.len() implies b2[e_name + 10 + t] == rdw[t] by {
                    assert(b2[e_name + 10 + t] == fixed[10 + t]);
                    assert(fixed[10 + t] == rdw[t]);
                }
            }
            lemma_rdata_wire_roundtrip(v.rdata);
            assert(spec_parse_rr_fixed(b2, ls2, e_name) == Some(
                (
                    ResourceRecordView {
                        name: ls2,
                        rtype: v.rtype,
                        class: v.class,
                        ttl: v.ttl,
                        rdata: v.rdata,
                    },
                    e_name + 10 + rdw.len(),
                ),
            ));
            assert(e_name + 10 + rdw.len() == base + out.len());
            crate::compress::lemma_map_tracks_extend(
                insert_from(m, lower_texts(v.name), base, 0),
                bn,
                fixed,
            );
            assert(bn + fixed =~= b2);
        },
        Err(_) => {
            assert(false);
        },
    }
}

/// The compressed wire form of a record run against dictionary `m` at `base`:
/// each record in order, threading the rolling offset and the grown
/// dictionary into the next.
pub open spec fn compress_rrs_out(
    m: Map<Seq<Seq<u8>>, u16>,
    vs: Seq<ResourceRecordView>,
    base: int,
) -> (Seq<u8>, int, Map<Seq<Seq<u8>>, u16>)
    decreases vs.len(),
{
    if vs.len() == 0 {
        (Seq::empty(), base, m)
    } else {
        let out0 = compress_rr_out(m, vs[0]);
        let m1 = insert_from(m, lower_texts(vs[0].name), base, 0);
        let rest = compress_rrs_out(m1, vs.drop_first(), base + out0.len());
        (out0 + rest.0, rest.1, rest.2)
    }
}

/// Parse `n` compressed records in sequence at `pos`.
pub open spec fn spec_parse_crrs(b: Seq<u8>, pos: int, n: nat) -> Result<
    (Seq<ResourceRecordView>, int),
    ParseDataError,
>
    decreases n,
{
    if n == 0 {
        Ok((Seq::empty(), pos))
    } else {
        match spec_parse_crr(b, pos) {
            Err(e) => Err(e),
            Ok((v, e)) => match spec_parse_crrs(b, e, (n - 1) as nat) {
                Err(er) => Err(er),
                Ok((vs, e2)) => Ok((seq![v] + vs, e2)),
            },
        }
    }
}

/// Compression round-trip for a record run: serializing any sequence of
/// well-formed records against a truthful dictionary, and parsing the result
/// back with a fresh pass over the same bytes, reconstructs owner names equal
/// (case-insensitively) to the originals with identical fixed fields and
/// payloads, and the final offset equals the serialized length.
#[verifier::rlimit(100)]
pub proof fn lemma_rrs_compress_roundtrip(
    m: Map<Seq<Seq<u8>>, u16>,
    vs: Seq<ResourceRecordView>,
    b: Seq<u8>,
)
    requires
        crate::compress::map_tracks(m, b),
        forall|i: int| 0 <= i < vs.len() ==> wf_rr(#[trigger] vs[i]),
        b.len() + rrs_wire(vs).len() <= 0x4000,
    ensures
        ({
            let r = compress_rrs_out(m, vs, b.len() as int);
            let b2 = b + r.0;
            &&& r.1 == b.len() + r.0.len()
            &&& crate::compress::map_tracks(r.2, b2)
            &&& match spec_parse_crrs(b2, b.len() as int, vs.len()) {
                Ok((vs2, e)) => {
                    &&& vs2.len() == vs.len()
                    &&& forall|i: int|
                        0 <= i < vs.len() ==> lower_texts((#[trigger] vs2[i]).name) == lower_texts(
                            vs[i].name,
                        ) && vs2[i].rtype == vs[i].rtype && vs2[i].class == vs[i].class
                            && vs2[i].ttl == vs[i].ttl && vs2[i].rdata == vs[i].rdata
                    &&& e == b.len() + r.0.len()
                },
                Err(_) => false,
            }
        }),
    decreases vs.len(),
{
    let base = b.len() as int;
    let r = compress_rrs_out(m, vs, base);
    let b2 = b + r.0;
    if vs.len() == 0 {
        assert(b2 =~= b);
        assert(r.0.len() == 0);
    } else {
        let v0 = vs[0];
        let out0 = compress_rr_out(m, v0);
        let m1 = insert_from(m, lower_texts(v0.name), base, 0);
        let rest_r = compress_rrs_out(m1, vs.drop_first(), base + out0.len());
        assert(r.0 =~= out0 + rest_r.0);
        assert(rrs_wire(vs) == rr_wire(v0) + rrs_wire(vs.drop_first()));
        assert(out0.len() <= rr_wire(v0).len()) by {
            crate::compress::lemma_compress_out_len(m, v0.name);
        }
        lemma_rr_compress_roundtrip(m, v0, b);
        assert((b + out0) + rest_r.0 =~= b2);
        match spec_parse_crr(b + out0, base) {
            Ok((v2, e)) => {
                lemma_parse_crr_extend(b + out0, rest_r.0, base);
                assert forall|i: int|
                    0 <= i < vs.drop_first().len() implies wf_rr(
                    #[trigger] vs.drop_first()[i],
                ) by {
                    assert(vs.drop_first()[i] == vs[i + 1]);
                }
                lemma_rrs_compress_roundtrip(m1, vs.drop_first(), b + out0);
                assert((b + out0).len() as int == base + out0.len());
                match spec_parse_crrs(b2, base + out0.len(), vs.drop_first().len()) {
                    Ok((vs2rest, e2)) => {
                        assert(spec_parse_crrs(b2, base, vs.len()) == Ok::<
                            (Seq<ResourceRecordView>, int),
                            ParseDataError,
                        >((seq![v2] + vs2rest, e2))) by {
                            assert((vs.len() - 1) as nat == vs.drop_first().len());
                        }
                        assert forall|i: int|
                            0 <= i < vs.len() implies lower_texts(
                            (#[trigger] (seq![v2] + vs2rest)[i]).name,
                        ) == lower_texts(vs[i].name) && (seq![v2] + vs2rest)[i].rtype
                            == vs[i].rtype && (seq![v2] + vs2rest)[i].class == vs[i].class && (
                        seq![v2] + vs2rest)[i].ttl == vs[i].ttl && (seq![v2] + vs2rest)[i].rdata
                            == vs[i].rdata by {
                            if i == 0 {
                            } else {
                                assert((seq![v2] + vs2rest)[i] == vs2rest[i - 1]);
                                assert(vs.drop_first()[i - 1] == vs[i]);
                            }
                        }
                    },
                    Err(_) => {
                        assert(false);
                    },
                }
            },
            Err(_) => {
                assert(false);
            },
        }
    }
}

/// The views of a run of records.
pub open spec fn rr_views(v: Seq<ResourceRecord>) -> Seq<ResourceRecordView> {
    v.map_values(|rr: ResourceRecord| rr@)
}

/// The plain wire form of a record section: each record's wire form, in
/// order.
pub open spec fn rrs_wire(vs: Seq<ResourceRecordView>) -> Seq<u8>
    decreases vs.len(),
{
    if vs.len() == 0 {
        Seq::empty()
    } else {
        rr_wire(vs[0]) + rrs_wire(vs.drop_first())
    }
}

pub proof fn lemma_rrs_wire_push(vs: Seq<ResourceRecordView>, v: ResourceRecordView)
    ensures
        rrs_wire(vs.push(v)) == rrs_wire(vs) + rr_wire(v),
    decreases vs.len(),
{
    if vs.len() == 0 {
        assert(vs.push(v).drop_first() =~= vs);
        assert(rrs_wire(vs.push(v)) =~= rrs_wire(vs) + rr_wire(v));
    } else {
        assert(vs.push(v).drop_first() =~= vs.drop_first().push(v));
        lemma_rrs_wire_push(vs.drop_first(), v);
        assert(rrs_wire(vs.push(v)) =~= rrs_wire(vs) + rr_wire(v));
    }
}

/// Parse `n` plain records in sequence at `pos`.
pub open spec fn spec_parse_rrs(b: Seq<u8>, pos: int, n: nat) -> Option<
    (Seq<ResourceRecordView>, int),
>
    decreases n,
{
    if n == 0 {
        Some((Seq::empty(), pos))
    } else {
        match spec_parse_rr(b, pos) {
            None => None,
            Some((v, e)) => match spec_parse_rrs(b, e, (n - 1) as nat) {
                None => None,
                Some((vs, e2)) => Some((seq![v] + vs, e2)),
            },
        }
    }
}

/// A record section of a message — answer, authority or additional. Nothing
/// in the byte stream delimits it, so parsing takes the expected count from
/// the matching header field.
#[derive(Debug, PartialEq)]
pub struct ResourceRecordSection {
    resource_records: Vec<ResourceRecord>,
}

impl View for ResourceRecordSection {
    type V = Seq<ResourceRecordView>;

    closed spec fn view(&self) -> Seq<ResourceRecordView> {
        rr_views(self.resource_records@)
    }
}

impl ResourceRecordSection {
    pub fn new(resource_records: Vec<ResourceRecord>) -> (r: Self)
        ensures
            r@ == rr_views(resource_records@),
    {
        ResourceRecordSection { resource_records }
    }

    /// The records, in order.
    pub fn records(&self) -> (r: &Vec<ResourceRecord>)
        ensures
            r@.len() == self@.len(),
            forall|i: int| 0 <= i < r@.len() ==> (#[trigger] r@[i])@ == self@[i],
    {
        &self.resource_records
    }

    /// The plain wire form: each record's bytes, in order.
    pub fn to_bytes(&self) -> (r: Vec<u8>)
        requires
            forall|i: int|
                0 <= i < self@.len() ==> rdata_wire((#[trigger] self@[i]).rdata).len() <= 0xFFFF,
        ensures
            r@ == rrs_wire(self@),
    {
        let mut out: Vec<u8> = Vec::new();
        let n = self.resource_records.len();
        let mut i: usize = 0;
        proof {
            assert(self@.take(0int) =~= Seq::<ResourceRecordView>::empty());
        }
        while i < n
            invariant
                0 <= i <= n,
                n == self.resource_records@.len(),
                forall|j: int|
                    0 <= j < self@.len() ==> rdata_wire((#[trigger] self@[j]).rdata).len()
                        <= 0xFFFF,
                out@ == rrs_wire(self@.take(i as int)),
            decreases n - i,
        {
            let mut piece = self.resource_records[i].to_bytes();
            proof {
                assert(self@.take(i as int + 1) =~= self@.take(i as int).push(self@[i as int]));
                lemma_rrs_wire_push(self@.take(i as int), self@[i as int]);
            }
            out.append(&mut piece);
            i += 1;
        }
        proof {
            assert(self@.take(n as int) =~= self@);
        }
        out
    }

    /// Serialize the section against the dictionary, each record threading
    /// the rolling offset and the dictionary into the next.
    pub fn to_bytes_compressed(&self, base_offset: MessageOffset, label_map: &mut LabelMap) -> (outcome:
        SerializeCompressedOutcome)
        requires
            old(label_map).wf(),
            forall|i: int| 0 <= i < self@.len() ==> (#[trigger] self@[i]).name.len() > 0,
            forall|i: int|
                0 <= i < self@.len() ==> rdata_wire((#[trigger] self@[i]).rdata).len() <= 0xFFFF,
            base_offset + rrs_wire(self@).len() <= 0x4000,
        ensures
            final(label_map).wf(),
            ({
                let r = compress_rrs_out(old(label_map)@, self@, base_offset as int);
                &&& outcome.compressed_bytes@ == r.0
                &&& outcome.new_offset == r.1
                &&& final(label_map)@ == r.2
            }),
    {
        let ghost m0 = label_map@;
        let ghost full = compress_rrs_out(m0, self@, base_offset as int);
        let n = self.resource_records.len();
        let mut bytes: Vec<u8> = Vec::new();
        let mut rolling: u16 = base_offset;
        let mut i: usize = 0;
        proof {
            assert(self@.skip(0int) =~= self@);
            assert forall|x: Seq<u8>| #[trigger] (bytes@ + x) == x by {
                assert(bytes@ + x =~= x);
            }
        }
        while i < n
            invariant
                0 <= i <= n,
                n == self.resource_records@.len() == self@.len(),
                label_map.wf(),
                forall|j: int| 0 <= j < self@.len() ==> (#[trigger] self@[j]).name.len() > 0,
                forall|j: int|
                    0 <= j < self@.len() ==> rdata_wire((#[trigger] self@[j]).rdata).len()
                        <= 0xFFFF,
                full == compress_rrs_out(m0, self@, base_offset as int),
                rolling == base_offset + bytes@.len(),
                rolling + rrs_wire(self@.skip(i as int)).len() <= 0x4000,
                full == ({
                    let rest = compress_rrs_out(label_map@, self@.skip(i as int), rolling as int);
                    (bytes@ + rest.0, rest.1, rest.2)
                }),
            decreases n - i,
        {
            let ghost skipped = self@.skip(i as int);
            proof {
                assert(skipped[0] == self@[i as int]);
                assert(skipped.drop_first() =~= self@.skip(i as int + 1));
                assert(rrs_wire(skipped) == rr_wire(skipped[0]) + rrs_wire(skipped.drop_first()));
                crate::compress::lemma_compress_out_len(label_map@, self@[i as int].name);
                assert(compress_rr_out(label_map@, self@[i as int]).len() <= rr_wire(
                    self@[i as int],
                ).len());
            }
            let rr = &self.resource_records[i];
            proof {
                assert(rr@ == self@[i as int]);
            }
            let outcome = rr.to_bytes_compressed(rolling, label_map);
            let mut piece = outcome.compressed_bytes;
            proof {
                assert((bytes@ + piece@) + compress_rrs_out(
                    label_map@,
                    self@.skip(i as int + 1),
                    outcome.new_offset as int,
                ).0 =~= bytes@ + (piece@ + compress_rrs_out(
                    label_map@,
                    self@.skip(i as int + 1),
                    outcome.new_offset as int,
                ).0));
            }
            bytes.append(&mut piece);
            rolling = outcome.new_offset;
            i += 1;
        }
        proof {
            assert(self@.skip(n as int) =~= Seq::<ResourceRecordView>::empty());
            assert(bytes@ + Seq::<u8>::empty() =~= bytes@);
        }
        SerializeCompressedOutcome { compressed_bytes: bytes, new_offset: rolling }
    }

    /// Parse `num_records` compressed records at `base_offset` of the full
    /// message. Returns the section and the offset just after it.
    pub fn parse_compressed(
        full_message_bytes: &[u8],
        base_offset: MessageOffset,
        num_records: u16,
    ) -> (r: Result<(Self, MessageOffset), ParseDataError>)
        requires
            full_message_bytes@.len() <= 0xFFFF,
        ensures
            match r {
                Ok(p) => spec_parse_crrs(
                    full_message_bytes@,
                    base_offset as int,
                    num_records as nat,
                ) == Ok::<(Seq<ResourceRecordView>, int), ParseDataError>((p.0@, p.1 as int)),
                Err(e) => spec_parse_crrs(
                    full_message_bytes@,
                    base_offset as int,
                    num_records as nat,
                ) == Err::<(Seq<ResourceRecordView>, int), ParseDataError>(e),
            },
    {
        let mut records: Vec<ResourceRecord> = Vec::new();
        let mut pos: u16 = base_offset;
        let mut left = num_records;
        proof {
            assert forall|vs2: Seq<ResourceRecordView>| #[trigger] (rr_views(records@) + vs2)
                == vs2 by {
                assert(rr_views(records@) + vs2 =~= vs2);
            }
        }
        while left > 0
            invariant
                full_message_bytes@.len() <= 0xFFFF,
                spec_parse_crrs(full_message_bytes@, base_offset as int, num_records as nat)
                    == match spec_parse_crrs(full_message_bytes@, pos as int, left as nat) {
                    Err(er) => Err::<(Seq<ResourceRecordView>, int), ParseDataError>(er),
                    Ok((vs2, e)) => Ok((rr_views(records@) + vs2, e)),
                },
            decreases left,
        {
            match ResourceRecord::parse_compressed(full_message_bytes, pos) {
                Err(e) => {
                    return Err(e);
                },
                Ok((rr, e)) => {
                    proof {
                        let cur = records@;
                        assert forall|vs2: Seq<ResourceRecordView>|
                            rr_views(cur.push(rr)) + vs2 =~= rr_views(cur) + (seq![rr@] + vs2) by {
                            assert(rr_views(cur.push(rr)) =~= rr_views(cur).push(rr@));
                        }
                    }
                    records.push(rr);
                    pos = e;
                    left = left - 1;
                },
            }
        }
        proof {
            assert(rr_views(records@) + Seq::<ResourceRecordView>::empty() =~= rr_views(records@));
        }
        Ok((ResourceRecordSection { resource_records: records }, pos))
    }

    /// Parse `num_records` plain records from the front of `bytes`. Returns
    /// the section and the count of bytes consumed.
    pub fn parse(bytes: &[u8], num_records: u16) -> (r: Result<(Self, usize), ParseDataError>)
        ensures
            match r {
                Ok(p) => spec_parse_rrs(bytes@, 0, num_records as nat) == Some(
                    (p.0@, p.1 as int),
                ),
                Err(e) => {
                    &&& spec_parse_rrs(bytes@, 0, num_records as nat) is None
                    &&& e == ParseDataError::InvalidByteStructure
                },
            },
    {
        let mut records: Vec<ResourceRecord> = Vec::new();
        let mut pos: usize = 0;
        let mut left = num_records;
        proof {
            assert forall|vs2: Seq<ResourceRecordView>| #[trigger] (rr_views(records@) + vs2)
                == vs2 by {
                assert(rr_views(records@) + vs2 =~= vs2);
            }
        }
        while left > 0
            invariant
                spec_parse_rrs(bytes@, 0, num_records as nat) == match spec_parse_rrs(
                    bytes@,
                    pos as int,
                    left as nat,
                ) {
                    None => None::<(Seq<ResourceRecordView>, int)>,
                    Some((vs2, e)) => Some((rr_views(records@) + vs2, e)),
                },
            decreases left,
        {
            match ResourceRecord::parse_at(bytes, pos) {
                Err(_) => {
                    return Err(ParseDataError::InvalidByteStructure);
                },
                Ok((rr, e)) => {
                    proof {
                        let cur = records@;
                        assert forall|vs2: Seq<ResourceRecordView>|
                            rr_views(cur.push(rr)) + vs2 =~= rr_views(cur) + (seq![rr@] + vs2) by {
                            assert(rr_views(cur.push(rr)) =~= rr_views(cur).push(rr@));
                        }
                    }
                    records.push(rr);
                    pos = e;
                    left = left - 1;
                },
            }
        }
        proof {
            assert(rr_views(records@) + Seq::<ResourceRecordView>::empty() =~= rr_views(records@));
        }
        Ok((ResourceRecordSection { resource_records: records }, pos))
    }
}

} // verus!
