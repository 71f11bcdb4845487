//! The RDATA payload variants of RFC 1035 section 3.3: A (four address
//! octets), NS / CNAME / PTR (one embedded plain domain name), SOA (two names
//! and five 32-bit fields), and TXT (one or more character strings).
//! Names inside RDATA use the plain codec: they are not subject to the
//! message-wide compression dictionary.

use vstd::prelude::*;

use crate::name::{spec_parse_name, DomainName};
use crate::types::{all_ascii, char_string_wire, spec_parse_char_string, CharacterString};
use crate::wire::{name_wire, push_u32_be, read_u32_be, u32_be, u32_of};
use crate::ParseDataError;

verus! {

// ---------------------------------------------------------------------------
// A records
// ---------------------------------------------------------------------------

/// The RDATA of an A record: four raw address octets.
#[derive(Debug, PartialEq, Eq)]
pub struct ARdata {
    address: [u8; 4],
}

impl View for ARdata {
    type V = Seq<u8>;

    closed spec fn view(&self) -> Seq<u8> {
        self.address@
    }
}

/// Parse four address octets at `pos`.
pub open spec fn spec_parse_ardata(b: Seq<u8>, pos: int) -> Option<(Seq<u8>, int)> {
    if 0 <= pos && pos + 4 <= b.len() {
        Some((b.subrange(pos, pos + 4), pos + 4))
    } else {
        None
    }
}

impl ARdata {
    pub fn new(address: [u8; 4]) -> (r: Self)
        ensures
            r@ == address@,
    {
        ARdata { address }
    }

    /// The four address octets.
    pub fn address(&self) -> (r: [u8; 4])
        ensures
            r@ == self@,
    {
        self.address
    }

    /// The wire form: the four octets as they stand.
    pub fn to_bytes(&self) -> (r: Vec<u8>)
        ensures
            r@ == self@,
            r@.len() == 4,
    {
        let mut out: Vec<u8> = Vec::new();
        out.push(self.address[0]);
        out.push(self.address[1]);
        out.push(self.address[2]);
        out.push(self.address[3]);
        proof {
            assert(out@ =~= self@);
        }
        out
    }

    /// Read four address octets from the front of `bytes`.
    pub fn parse(bytes: &[u8]) -> (r: Result<(Self, usize), ParseDataError>)
        ensures
            match r {
                Ok(p) => spec_parse_ardata(bytes@, 0) == Some((p.0@, p.1 as int)),
                Err(e) => {
                    &&& spec_parse_ardata(bytes@, 0) is None
                    &&& e == ParseDataError::InvalidByteStructure
                },
            },
    {
        if bytes.len() < 4 {
            return Err(ParseDataError::InvalidByteStructure);
        }
        let address: [u8; 4] = [bytes[0], bytes[1], bytes[2], bytes[3]];
        proof {
            assert(address@ =~= bytes@.subrange(0, 4));
        }
        Ok((ARdata { address }, 4))
    }
}

// ---------------------------------------------------------------------------
// Single-name records: CNAME, NS, PTR
// ---------------------------------------------------------------------------

/// The RDATA of a CNAME record: the canonical name of the alias's owner.
#[derive(Debug, PartialEq)]
pub struct CnameBytes {
    cname: DomainName,
}

/// The RDATA of an NS record: the name of an authoritative name server.
#[derive(Debug, PartialEq)]
pub struct NsdnameBytes {
    nsdname: DomainName,
}

/// The RDATA of a PTR record: a pointer to some location in the name space.
#[derive(Debug, PartialEq)]
pub struct PtrBytes {
    ptrdname: DomainName,
}

impl View for CnameBytes {
    type V = Seq<Seq<u8>>;

    closed spec fn view(&self) -> Seq<Seq<u8>> {
        self.cname@
    }
}

impl View for NsdnameBytes {
    type V = Seq<Seq<u8>>;

    closed spec fn view(&self) -> Seq<Seq<u8>> {
        self.nsdname@
    }
}

impl View for PtrBytes {
    type V = Seq<Seq<u8>>;

    closed spec fn view(&self) -> Seq<Seq<u8>> {
        self.ptrdname@
    }
}

impl CnameBytes {
    pub fn new(cname: DomainName) -> (r: Self)
        ensures
            r@ == cname@,
    {
        CnameBytes { cname }
    }

    /// The embedded name.
    pub fn name(&self) -> (r: &DomainName)
        ensures
            r@ == self@,
    {
        &self.cname
    }

    /// The wire form: the plain wire form of the embedded name.
    pub fn to_bytes(&self) -> (r: Vec<u8>)
        ensures
            r@ == name_wire(self@),
    {
        self.cname.to_bytes()
    }

    /// Read one plain domain name from the front of `bytes`.
    pub fn parse(bytes: &[u8]) -> (r: Result<(Self, usize), ParseDataError>)
        ensures
            match r {
                Ok(p) => spec_parse_name(bytes@, 0) == Some((p.0@, p.1 as int)),
                Err(e) => {
                    &&& spec_parse_name(bytes@, 0) is None
                    &&& e == ParseDataError::InvalidByteStructure
                },
            },
    {
        match DomainName::parse(bytes) {
            Ok((cname, used)) => Ok((CnameBytes { cname }, used)),
            Err(e) => Err(e),
        }
    }
}

impl NsdnameBytes {
    pub fn new(nsdname: DomainName) -> (r: Self)
        ensures
            r@ == nsdname@,
    {
        NsdnameBytes { nsdname }
    }

    /// The embedded name.
    pub fn name(&self) -> (r: &DomainName)
        ensures
            r@ == self@,
    {
        &self.nsdname
    }

    /// The wire form: the plain wire form of the embedded name.
    pub fn to_bytes(&self) -> (r: Vec<u8>)
        ensures
            r@ == name_wire(self@),
    {
        self.nsdname.to_bytes()
    }

    /// Read one plain domain name from the front of `bytes`.
    pub fn parse(bytes: &[u8]) -> (r: Result<(Self, usize), ParseDataError>)
        ensures
            match r {
                Ok(p) => spec_parse_name(bytes@, 0) == Some((p.0@, p.1 as int)),
                Err(e) => {
                    &&& spec_parse_name(bytes@, 0) is None
                    &&& e == ParseDataError::InvalidByteStructure
                },
            },
    {
        match DomainName::parse(bytes) {
            Ok((nsdname, used)) => Ok((NsdnameBytes { nsdname }, used)),
            Err(e) => Err(e),
        }
    }
}

impl PtrBytes {
    pub fn new(ptrdname: DomainName) -> (r: Self)
        ensures
            r@ == ptrdname@,
    {
        PtrBytes { ptrdname }
    }

    /// The embedded name.
    pub fn name(&self) -> (r: &DomainName)
        ensures
            r@ == self@,
    {
        &self.ptrdname
    }

    /// The wire form: the plain wire form of the embedded name.
    pub fn to_bytes(&self) -> (r: Vec<u8>)
        ensures
            r@ == name_wire(self@),
    {
        self.ptrdname.to_bytes()
    }

    /// Read one plain domain name from the front of `bytes`.
    pub fn parse(bytes: &[u8]) -> (r: Result<(Self, usize), ParseDataError>)
        ensures
            match r {
                Ok(p) => spec_parse_name(bytes@, 0) == Some((p.0@, p.1 as int)),
                Err(e) => {
                    &&& spec_parse_name(bytes@, 0) is None
                    &&& e == ParseDataError::InvalidByteStructure
                },
            },
    {
        match DomainName::parse(bytes) {
            Ok((ptrdname, used)) => Ok((PtrBytes { ptrdname }, used)),
            Err(e) => Err(e),
        }
    }
}

// ---------------------------------------------------------------------------
// SOA records
// ---------------------------------------------------------------------------

/// The abstract content of an SOA record.
pub ghost struct SoaView {
    pub mname: Seq<Seq<u8>>,
    pub rname: Seq<Seq<u8>>,
    pub serial: u32,
    pub refresh: u32,
    pub retry: u32,
    pub expire: u32,
    pub minimum: u32,
}

/// The wire form of an SOA RDATA: the two names, then the five 32-bit fields,
/// big-endian.
pub open spec fn soa_wire(v: SoaView) -> Seq<u8> {
    name_wire(v.mname) + name_wire(v.rname) + u32_be(v.serial) + u32_be(v.refresh) + u32_be(v.retry)
        + u32_be(v.expire) + u32_be(v.minimum)
}

/// Parse an SOA RDATA at `pos`: two plain names, then five 32-bit fields.
pub open spec fn spec_parse_soa(b: Seq<u8>, pos: int) -> Option<(SoaView, int)> {
    match spec_parse_name(b, pos) {
        None => None,
        Some((mname, e1)) => match spec_parse_name(b, e1) {
            None => None,
            Some((rname, e2)) => if e2 + 20 <= b.len() {
                Some(
                    (
                        SoaView {
                            mname,
                            rname,
                            serial: u32_of(b[e2], b[e2 + 1], b[e2 + 2], b[e2 + 3]),
                            refresh: u32_of(b[e2 + 4], b[e2 + 5], b[e2 + 6], b[e2 + 7]),
                            retry: u32_of(b[e2 + 8], b[e2 + 9], b[e2 + 10], b[e2 + 11]),
                            expire: u32_of(b[e2 + 12], b[e2 + 13], b[e2 + 14], b[e2 + 15]),
                            minimum: u32_of(b[e2 + 16], b[e2 + 17], b[e2 + 18], b[e2 + 19]),
                        },
                        e2 + 20,
                    ),
                )
            } else {
                None
            },
        },
    }
}

/// The RDATA of an SOA record: the zone's primary name server, the
/// responsible mailbox, and five 32-bit timing fields. The serial wraps and
/// is compared with sequence-space arithmetic.
#[derive(Debug, PartialEq)]
pub struct SoaBytes {
    mname: DomainName,
    rname: DomainName,
    serial: u32,
    refresh: u32,
    retry: u32,
    expire: u32,
    minimum: u32,
}

impl View for SoaBytes {
    type V = SoaView;

    closed spec fn view(&self) -> SoaView {
        SoaView {
            mname: self.mname@,
            rname: self.rname@,
            serial: self.serial,
            refresh: self.refresh,
            retry: self.retry,
            expire: self.expire,
            minimum: self.minimum,
        }
    }
}

impl SoaBytes {
    pub fn new(
        mname: DomainName,
        rname: DomainName,
        serial: u32,
        refresh: u32,
        retry: u32,
        expire: u32,
        minimum: u32,
    ) -> (r: Self)
        ensures
            r@ == (SoaView { mname: mname@, rname: rname@, serial, refresh, retry, expire, minimum }),
    {
        SoaBytes { mname, rname, serial, refresh, retry, expire, minimum }
    }

    pub fn mname(&self) -> (r: &DomainName)
        ensures
            r@ == self@.mname,
    {
        &self.mname
    }

    pub fn rname(&self) -> (r: &DomainName)
        ensures
            r@ == self@.rname,
    {
        &self.rname
    }

    pub fn serial(&self) -> (r: u32)
        ensures
            r == self@.serial,
    {
        self.serial
    }

    pub fn refresh(&self) -> (r: u32)
        ensures
            r == self@.refresh,
    {
        self.refresh
    }

    pub fn retry(&self) -> (r: u32)
        ensures
            r == self@.retry,
    {
        self.retry
    }

    pub fn expire(&self) -> (r: u32)
        ensures
            r == self@.expire,
    {
        self.expire
    }

    pub fn minimum(&self) -> (r: u32)
        ensures
            r == self@.minimum,
    {
        self.minimum
    }

    /// The wire form: both names plain, then the five fields big-endian.
    pub fn to_bytes(&self) -> (r: Vec<u8>)
        ensures
            r@ == soa_wire(self@),
    {
        let mut out = self.mname.to_bytes();
        let mut rpart = self.rname.to_bytes();
        out.append(&mut rpart);
        push_u32_be(&mut out, self.serial);
        push_u32_be(&mut out, self.refresh);
        push_u32_be(&mut out, self.retry);
        push_u32_be(&mut out, self.expire);
        push_u32_be(&mut out, self.minimum);
        proof {
            assert(out@ =~= soa_wire(self@));
        }
        out
    }

    /// Read one SOA RDATA from the front of `bytes`.
    pub fn parse(bytes: &[u8]) -> (r: Result<(Self, usize), ParseDataError>)
        ensures
            match r {
                Ok(p) => spec_parse_soa(bytes@, 0) == Some((p.0@, p.1 as int)),
                Err(e) => {
                    &&& spec_parse_soa(bytes@, 0) is None
                    &&& e == ParseDataError::InvalidByteStructure
                },
            },
    {
        let (mname, e1) = match DomainName::parse_at(bytes, 0) {
            Ok(p) => p,
            Err(_) => {
                return Err(ParseDataError::InvalidByteStructure);
            },
        };
        let (rname, e2) = match DomainName::parse_at(bytes, e1) {
            Ok(p) => p,
            Err(_) => {
                return Err(ParseDataError::InvalidByteStructure);
            },
        };
        if bytes.len() < 20 || e2 > bytes.len() - 20 {
            return Err(ParseDataError::InvalidByteStructure);
        }
        let serial = read_u32_be(bytes, e2);
        let refresh = read_u32_be(bytes, e2 + 4);
        let retry = read_u32_be(bytes, e2 + 8);
        let expire = read_u32_be(bytes, e2 + 12);
        let minimum = read_u32_be(bytes, e2 + 16);
        Ok((SoaBytes { mname, rname, serial, refresh, retry, expire, minimum }, e2 + 20))
    }
}

// ---------------------------------------------------------------------------
// TXT records
// ---------------------------------------------------------------------------

/// The texts of a run of character strings.
pub open spec fn text_views(v: Seq<CharacterString>) -> Seq<Seq<u8>> {
    v.map_values(|cs: CharacterString| cs@)
}

/// The wire form of a TXT RDATA: each character string's wire form, in order.
pub open spec fn txt_wire(ts: Seq<Seq<u8>>) -> Seq<u8>
    decreases ts.len(),
{
    if ts.len() == 0 {
        Seq::empty()
    } else {
        char_string_wire(ts[0]) + txt_wire(ts.drop_first())
    }
}

pub proof fn lemma_txt_wire_push(ts: Seq<Seq<u8>>, t: Seq<u8>)
    ensures
        txt_wire(ts.push(t)) == txt_wire(ts) + char_string_wire(t),
    decreases ts.len(),
{
    if ts.len() == 0 {
        assert(ts.push(t).drop_first() =~= ts);
        assert(txt_wire(ts.push(t)) =~= txt_wire(ts) + char_string_wire(t));
    } else {
        assert(ts.push(t).drop_first() =~= ts.drop_first().push(t));
        lemma_txt_wire_push(ts.drop_first(), t);
        assert(txt_wire(ts.push(t)) =~= txt_wire(ts) + char_string_wire(t));
    }
}

/// Parse character strings at `pos`, greedily, until the next one does not
/// fit. Never fails: an exhausted buffer simply ends the run.
pub open spec fn spec_parse_txt(b: Seq<u8>, pos: int) -> (Seq<Seq<u8>>, int)
    decreases b.len() - pos,
{
    match spec_parse_char_string(b, pos) {
        None => (Seq::empty(), pos),
        Some((t, e)) => {
            let rest = spec_parse_txt(b, e);
            (seq![t] + rest.0, rest.1)
        },
    }
}

/// Greedy character-string parsing is position-independent: the same bytes
/// after an arbitrary prefix parse to the same strings, shifted.
pub proof fn lemma_parse_txt_prepend(a: Seq<u8>, b: Seq<u8>, pos: int)
    requires
        pos >= 0,
    ensures
        spec_parse_txt(a + b, a.len() + pos) == ({
            let r = spec_parse_txt(b, pos);
            (r.0, a.len() + r.1)
        }),
    decreases b.len() - pos,
{
    let w = a + b;
    if pos >= b.len() {
        assert(spec_parse_char_string(w, a.len() + pos) is None);
        assert(spec_parse_char_string(b, pos) is None);
    } else {
        assert(w[a.len() + pos] == b[pos]);
        match crate::label::spec_parse_label(b, pos) {
            None => {
                assert(crate::label::spec_parse_label(w, a.len() + pos) is None);
            },
            Some((t, end)) => {
                assert(w.subrange(a.len() + pos + 1, a.len() + pos + 1 + w[a.len() + pos]) =~= t);
                assert(crate::label::spec_parse_label(w, a.len() + pos) == Some(
                    (t, a.len() + end),
                ));
                if all_ascii(t) {
                    lemma_parse_txt_prepend(a, b, end);
                }
            },
        }
    }
}

/// Round trip for TXT data: the concatenated wire forms of any run of
/// character strings parse back to exactly those strings, in order, consuming
/// the whole run.
pub proof fn lemma_txt_wire_roundtrip(ts: Seq<Seq<u8>>)
    requires
        forall|i: int| 0 <= i < ts.len() ==> (#[trigger] ts[i]).len() <= 255 && all_ascii(ts[i]),
    ensures
        spec_parse_txt(txt_wire(ts), 0) == (ts, txt_wire(ts).len() as int),
    decreases ts.len(),
{
    let w = txt_wire(ts);
    if ts.len() == 0 {
        assert(w =~= Seq::<u8>::empty());
        assert(spec_parse_char_string(w, 0) is None);
        assert(ts =~= Seq::<Seq<u8>>::empty());
    } else {
        let head = char_string_wire(ts[0]);
        let tail = txt_wire(ts.drop_first());
        assert(w =~= head + tail);
        let n = ts[0].len() as int;
        assert(w[0] == n as u8);
        assert(w.subrange(1, 1 + n) =~= ts[0]);
        assert(crate::label::spec_parse_label(w, 0) == Some((ts[0], 1 + n)));
        assert(spec_parse_char_string(w, 0) == Some((ts[0], 1 + n)));
        assert(forall|i: int|
            0 <= i < ts.drop_first().len() ==> (#[trigger] ts.drop_first()[i]).len() <= 255
                && all_ascii(ts.drop_first()[i]));
        lemma_txt_wire_roundtrip(ts.drop_first());
        lemma_parse_txt_prepend(head, tail, 0);
        assert(head.len() == 1 + n);
        assert(spec_parse_txt(w, 1 + n) == (ts.drop_first(), 1 + n + tail.len()));
        assert(seq![ts[0]] + ts.drop_first() =~= ts);
    }
}

/// Round trip for SOA data: the wire form of an SOA payload with well-formed
/// names parses back to exactly the same fields, consuming the whole payload.
pub proof fn lemma_soa_wire_roundtrip(v: SoaView)
    requires
        crate::name::wf_name(v.mname),
        crate::name::wf_name(v.rname),
    ensures
        spec_parse_soa(soa_wire(v), 0) == Some((v, soa_wire(v).len() as int)),
{
    let w = soa_wire(v);
    let m_w = name_wire(v.mname);
    let r_w = name_wire(v.rname);
    let ints = u32_be(v.serial) + u32_be(v.refresh) + u32_be(v.retry) + u32_be(v.expire) + u32_be(
        v.minimum,
    );
    assert(w =~= m_w + (r_w + ints));
    crate::name::lemma_name_wire_roundtrip(v.mname);
    crate::name::lemma_parse_name_extend(m_w, r_w + ints, 0);
    assert(spec_parse_name(w, 0) == Some((v.mname, m_w.len() as int)));
    crate::name::lemma_name_wire_roundtrip(v.rname);
    crate::name::lemma_parse_name_extend(r_w, ints, 0);
    crate::name::lemma_parse_name_prepend(m_w, r_w + ints, 0);
    let e2 = m_w.len() as int + r_w.len() as int;
    assert(spec_parse_name(w, m_w.len() as int) == Some((v.rname, e2)));
    assert(e2 + 20 <= w.len());
    crate::wire::lemma_u32_be_of(v.serial);
    crate::wire::lemma_u32_be_of(v.refresh);
    crate::wire::lemma_u32_be_of(v.retry);
    crate::wire::lemma_u32_be_of(v.expire);
    crate::wire::lemma_u32_be_of(v.minimum);
    assert forall|k: int| 0 <= k < 20 implies w[e2 + k] == ints[k] by {
        assert(w[e2 + k] == (m_w + (r_w + ints))[e2 + k]);
    }
    assert(u32_of(w[e2], w[e2 + 1], w[e2 + 2], w[e2 + 3]) == v.serial);
    assert(u32_of(w[e2 + 4], w[e2 + 5], w[e2 + 6], w[e2 + 7]) == v.refresh);
    assert(u32_of(w[e2 + 8], w[e2 + 9], w[e2 + 10], w[e2 + 11]) == v.retry);
    assert(u32_of(w[e2 + 12], w[e2 + 13], w[e2 + 14], w[e2 + 15]) == v.expire);
    assert(u32_of(w[e2 + 16], w[e2 + 17], w[e2 + 18], w[e2 + 19]) == v.minimum);
}

/// The RDATA of a TXT record: one or more character strings, concatenated.
#[derive(Debug, PartialEq)]
pub struct TxtBytes {
    txt_data: Vec<CharacterString>,
}

impl View for TxtBytes {
    type V = Seq<Seq<u8>>;

    closed spec fn view(&self) -> Seq<Seq<u8>> {
        text_views(self.txt_data@)
    }
}

impl TxtBytes {
    pub fn new(txt_data: Vec<CharacterString>) -> (r: Self)
        ensures
            r@ == text_views(txt_data@),
    {
        TxtBytes { txt_data }
    }

    /// The character strings, in order.
    pub fn texts(&self) -> (r: &Vec<CharacterString>)
        ensures
            r@.len() == self@.len(),
            forall|i: int| 0 <= i < r@.len() ==> (#[trigger] r@[i])@ == self@[i],
    {
        &self.txt_data
    }

    /// The wire form: each character string's wire form, in order.
    pub fn to_bytes(&self) -> (r: Vec<u8>)
        ensures
            r@ == txt_wire(self@),
    {
        let mut out: Vec<u8> = Vec::new();
        let n = self.txt_data.len();
        let mut i: usize = 0;
        proof {
            assert(self@.take(0int) =~= Seq::<Seq<u8>>::empty());
        }
        while i < n
            invariant
                0 <= i <= n,
                n == self.txt_data@.len(),
                out@ == txt_wire(self@.take(i as int)),
            decreases n - i,
        {
            let mut piece = self.txt_data[i].to_bytes();
            proof {
                assert(self@.take(i as int + 1) =~= self@.take(i as int).push(self@[i as int]));
                lemma_txt_wire_push(self@.take(i as int), self@[i as int]);
            }
            out.append(&mut piece);
            i += 1;
        }
        proof {
            assert(self@.take(n as int) =~= self@);
        }
        out
    }

    /// Read character strings from the front of `bytes` until the next one
    /// does not fit; a trailing remainder is left unconsumed.
    pub fn parse(bytes: &[u8]) -> (r: Result<(Self, usize), ParseDataError>)
        ensures
            match r {
                Ok(p) => spec_parse_txt(bytes@, 0) == (p.0@, p.1 as int),
                Err(_) => false,
            },
    {
        let mut txt_data: Vec<CharacterString> = Vec::new();
        let mut pos: usize = 0;
        proof {
            assert forall|rest: Seq<Seq<u8>>| #[trigger] (text_views(txt_data@) + rest)
                == rest by {
                assert(text_views(txt_data@) + rest =~= rest);
            }
        }
        loop
            invariant
                pos <= bytes@.len() || pos == 0,
                spec_parse_txt(bytes@, 0) == ({
                    let rest = spec_parse_txt(bytes@, pos as int);
                    (text_views(txt_data@) + rest.0, rest.1)
                }),
            decreases bytes@.len() - pos,
        {
            match CharacterString::parse_at(bytes, pos) {
                Err(_) => {
                    proof {
                        assert(text_views(txt_data@) + Seq::<Seq<u8>>::empty() =~= text_views(
                            txt_data@,
                        ));
                    }
                    return Ok((TxtBytes { txt_data }, pos));
                },
                Ok((cs, e)) => {
                    proof {
                        let cur = txt_data@;
                        assert forall|rest: Seq<Seq<u8>>|
                            text_views(cur.push(cs)) + rest =~= text_views(cur) + (seq![cs@]
                                + rest) by {
                            assert(text_views(cur.push(cs)) =~= text_views(cur).push(cs@));
                        }
                    }
                    txt_data.push(cs);
                    pos = e;
                },
            }
        }
    }
}

} // verus!
